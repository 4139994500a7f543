//! Codes stay unique: where no two local users and no two cloud users share
//! a code, no two users share one after any number of steps of the plan.

use crate::diff::{created, deleted_ids, differs, updated};
use crate::domain::Timestamp;
use crate::laws::{
    after_user_steps, law_deleted_ids, law_updated, lemma_create_phase, lemma_delete_phase,
    lemma_joined, lemma_recycle_phase, lemma_run_append, lemma_update_named, lemma_update_phase,
    lemma_update_untouched, lemma_updated_distinct, lemma_user_steps_converge,
    lemma_watermark_phase,
};
use crate::plan::{
    create_steps, delete_steps, effect, recycle_steps, run, update_steps, watermark_steps,
    with_code, State, Step, SyncPlan,
};
use crate::recycle::{
    claimed, codes, must_recycle, placeholder, placeholders, recycled, recycles_for, taken_codes,
    takes, Recycle,
};
use crate::roster::{
    as_map, distinct_ids, entries, entry_of, has_id, law_roster_map, lemma_position_of, position_of,
    Entry, Record,
};
use vstd::prelude::*;

verus! {

/// No two users of `m` share a code.
pub open spec fn codes_unique(m: Map<i64, Record>) -> bool {
    forall|a: i64, b: i64|
        m.contains_key(a) && m.contains_key(b) && a != b ==> (#[trigger] m[a]).user.code != (
        #[trigger] m[b]).user.code
}

/// Every placeholder of `rec` differs from the codes of both rosters and
/// from the placeholders before it.
pub open spec fn all_fresh(rec: Seq<Recycle>, local: Seq<Entry>, cloud: Seq<Entry>) -> bool {
    forall|i: int|
        0 <= i < rec.len() ==> !taken_codes(local, cloud, rec.take(i)).contains(
            (#[trigger] rec[i]).code@,
        )
}

proof fn lemma_all_fresh(
    rec: Seq<Recycle>,
    r: Seq<Entry>,
    local: Seq<Entry>,
    cloud: Seq<Entry>,
)
    requires
        recycles_for(rec, r, local, cloud),
    ensures
        all_fresh(rec, local, cloud),
{
    reveal(placeholder);
}

/// A fresh placeholder is no code of the local roster, no code of the cloud
/// roster and no earlier placeholder.
proof fn lemma_fresh(rec: Seq<Recycle>, local: Seq<Entry>, cloud: Seq<Entry>, i: int)
    requires
        all_fresh(rec, local, cloud),
        0 <= i < rec.len(),
    ensures
        forall|k: int| 0 <= k < local.len() ==> (#[trigger] local[k]).user.code != rec[i].code@,
        forall|k: int| 0 <= k < cloud.len() ==> (#[trigger] cloud[k]).user.code != rec[i].code@,
        forall|k: int| 0 <= k < i ==> (#[trigger] rec[k]).code@ != rec[i].code@,
{
    let a = codes(local);
    let b = codes(cloud);
    let c = placeholders(rec.take(i));
    let all = taken_codes(local, cloud, rec.take(i));
    let p = rec[i].code@;
    assert(!all.contains(p));
    assert forall|k: int| 0 <= k < local.len() implies (#[trigger] local[k]).user.code != p by {
        assert(all[k] == a[k]);
    }
    assert forall|k: int| 0 <= k < cloud.len() implies (#[trigger] cloud[k]).user.code != p by {
        assert(all[a.len() + k] == b[k]);
    }
    assert forall|k: int| 0 <= k < i implies (#[trigger] rec[k]).code@ != p by {
        assert(all[a.len() + b.len() + k] == c[k]);
        assert(rec.take(i)[k] == rec[k]);
    }
}

/// The code of a user of the roster is a code of one of its entries.
proof fn lemma_code_in_roster(s: Seq<Entry>, id: i64)
    requires
        as_map(s).contains_key(id),
    ensures
        exists|k: int| 0 <= k < s.len() && (#[trigger] s[k]).user.code == as_map(s)[id].user.code,
{
    law_roster_map(s, id);
    lemma_position_of(s, id);
    let k = position_of(s, id);
    assert(s[k].user.code == as_map(s)[id].user.code);
}

/// What the recycle steps leave of one user: the user as it was where no
/// step names it, and else the user with the placeholder of a step that
/// names it.
pub(crate) proof fn lemma_recycle_result(s: State, r: Seq<Recycle>, id: i64)
    requires
        s.users.contains_key(id),
    ensures
        ({
            let v = run(s, recycle_steps(r)).users;
            ||| (forall|i: int| 0 <= i < r.len() ==> (#[trigger] r[i]).user_id != id) && v[id]
                == s.users[id]
            ||| exists|i: int|
                0 <= i < r.len() && (#[trigger] r[i]).user_id == id && v[id] == with_code(
                    s.users[id],
                    r[i].code@,
                )
        }),
    decreases r.len(),
{
    let steps = recycle_steps(r);
    if r.len() > 0 {
        let front = r.drop_last();
        let last = r.last();
        assert(steps.drop_last() =~= recycle_steps(front));
        lemma_recycle_result(s, front, id);
        lemma_recycle_phase(s, front);
        let mid = run(s, recycle_steps(front));
        let v = run(s, steps).users;
        assert(run(s, steps) == effect(mid, steps.last()));
        assert(mid.users.dom().contains(id));
        if last.user_id == id {
            assert(r[r.len() - 1].user_id == id);
            assert(v[id] == with_code(mid.users[id], last.code@));
            assert(with_code(mid.users[id], last.code@) == with_code(s.users[id], last.code@));
        } else {
            assert(v[id] == mid.users[id]);
            if forall|i: int| 0 <= i < front.len() ==> (#[trigger] front[i]).user_id != id {
                assert forall|i: int| 0 <= i < r.len() implies (#[trigger] r[i]).user_id != id by {
                    if i < front.len() {
                        assert(front[i].user_id != id);
                    }
                }
            } else {
                let i = choose|i: int|
                    0 <= i < front.len() && (#[trigger] front[i]).user_id == id && mid.users[id]
                        == with_code(s.users[id], front[i].code@);
                assert(r[i] == front[i]);
            }
        }
    }
}

/// Every user of `m` is a user of `of`, with the same record.
pub open spec fn part_of(m: Map<i64, Record>, of: Map<i64, Record>) -> bool {
    forall|id: i64| #[trigger] m.contains_key(id) ==> of.contains_key(id) && m[id] == of[id]
}

/// A part of a roster with unique codes has unique codes.
pub(crate) proof fn lemma_part_unique(m: Map<i64, Record>, of: Map<i64, Record>)
    requires
        part_of(m, of),
        codes_unique(of),
    ensures
        codes_unique(m),
{
    assert forall|a: i64, b: i64|
        m.contains_key(a) && m.contains_key(b) && a != b implies (#[trigger] m[a]).user.code != (
    #[trigger] m[b]).user.code by {
        assert(of[a].user.code != of[b].user.code);
    }
}

proof fn lemma_fresh_prefix(rec: Seq<Recycle>, local: Seq<Entry>, cloud: Seq<Entry>, j: int)
    requires
        all_fresh(rec, local, cloud),
        0 <= j <= rec.len(),
    ensures
        all_fresh(rec.take(j), local, cloud),
{
    let r = rec.take(j);
    assert forall|i: int| 0 <= i < r.len() implies !taken_codes(local, cloud, r.take(i)).contains(
        (#[trigger] r[i]).code@,
    ) by {
        assert(r.take(i) =~= rec.take(i));
        assert(r[i] == rec[i]);
    }
}

proof fn lemma_recycled_pair(
    s: State,
    local: Seq<Entry>,
    cloud: Seq<Entry>,
    r: Seq<Recycle>,
    a: i64,
    b: i64,
)
    requires
        part_of(s.users, as_map(local)),
        codes_unique(as_map(local)),
        all_fresh(r, local, cloud),
        s.users.contains_key(a),
        s.users.contains_key(b),
        a != b,
    ensures
        run(s, recycle_steps(r)).users[a].user.code != run(s, recycle_steps(r)).users[b].user.code,
{
    let v = run(s, recycle_steps(r)).users;
    lemma_recycle_result(s, r, a);
    lemma_recycle_result(s, r, b);
    lemma_code_in_roster(local, a);
    lemma_code_in_roster(local, b);
    let a_kept = (forall|i: int| 0 <= i < r.len() ==> (#[trigger] r[i]).user_id != a) && v[a]
        == s.users[a];
    let b_kept = (forall|i: int| 0 <= i < r.len() ==> (#[trigger] r[i]).user_id != b) && v[b]
        == s.users[b];
    if a_kept && b_kept {
        assert(as_map(local)[a].user.code != as_map(local)[b].user.code);
    } else if a_kept {
        let i = choose|i: int|
            0 <= i < r.len() && (#[trigger] r[i]).user_id == b && v[b] == with_code(
                s.users[b],
                r[i].code@,
            );
        lemma_fresh(r, local, cloud, i);
    } else if b_kept {
        let i = choose|i: int|
            0 <= i < r.len() && (#[trigger] r[i]).user_id == a && v[a] == with_code(
                s.users[a],
                r[i].code@,
            );
        lemma_fresh(r, local, cloud, i);
    } else {
        let i = choose|i: int|
            0 <= i < r.len() && (#[trigger] r[i]).user_id == a && v[a] == with_code(
                s.users[a],
                r[i].code@,
            );
        let k = choose|k: int|
            0 <= k < r.len() && (#[trigger] r[k]).user_id == b && v[b] == with_code(
                s.users[b],
                r[k].code@,
            );
        lemma_fresh(r, local, cloud, i);
        lemma_fresh(r, local, cloud, k);
    }
}

/// While codes are recycled, no two users share a code.
pub(crate) proof fn lemma_unique_while_recycling(
    s: State,
    local: Seq<Entry>,
    cloud: Seq<Entry>,
    r: Seq<Recycle>,
)
    requires
        part_of(s.users, as_map(local)),
        codes_unique(as_map(local)),
        all_fresh(r, local, cloud),
    ensures
        codes_unique(run(s, recycle_steps(r)).users),
{
    let v = run(s, recycle_steps(r)).users;
    lemma_recycle_phase(s, r);
    assert forall|a: i64, b: i64|
        v.contains_key(a) && v.contains_key(b) && a != b implies (#[trigger] v[a]).user.code != (
    #[trigger] v[b]).user.code by {
        assert(s.users.dom().contains(a));
        assert(s.users.dom().contains(b));
        lemma_recycled_pair(s, local, cloud, r, a, b);
    }
}

/// In a roster without repeated ids, each entry is the entry of its id.
pub(crate) proof fn lemma_entry_record(cloud: Seq<Entry>, e: Entry)
    requires
        distinct_ids(cloud),
        cloud.contains(e),
    ensures
        has_id(cloud, e.user.id),
        entry_of(cloud, e.user.id) == e,
        as_map(cloud).contains_key(e.user.id),
        as_map(cloud)[e.user.id] == e.record(),
{
    let j = choose|j: int| 0 <= j < cloud.len() && cloud[j] == e;
    assert(cloud[j].user.id == e.user.id);
    lemma_position_of(cloud, e.user.id);
    law_roster_map(cloud, e.user.id);
    let p = position_of(cloud, e.user.id);
    if j < p {
        assert(cloud[j].user.id != cloud[p].user.id);
    } else if p < j {
        assert(cloud[p].user.id != cloud[j].user.id);
    }
}

/// A user of `part` that must give up its code is among the recycled.
pub(crate) proof fn lemma_recycled_has(local: Seq<Entry>, upd: Seq<Entry>, part: Seq<Entry>, k: int)
    requires
        0 <= k < part.len(),
        must_recycle(local, upd, part[k]),
    ensures
        exists|i: int|
            0 <= i < recycled(local, upd, part).len() && (#[trigger] recycled(
                local,
                upd,
                part,
            )[i]).user.id == part[k].user.id,
    decreases part.len(),
{
    let front = part.drop_last();
    let rest = recycled(local, upd, front);
    let all = recycled(local, upd, part);
    if k < front.len() {
        assert(front[k] == part[k]);
        lemma_recycled_has(local, upd, front, k);
        let i = choose|i: int|
            0 <= i < rest.len() && (#[trigger] rest[i]).user.id == part[k].user.id;
        assert(all[i] == rest[i]);
    } else {
        lemma_position_of(local, part[k].user.id);
        assert(all[rest.len() as int].user.id == part[k].user.id);
    }
}

proof fn lemma_two_updated(cloud: Seq<Entry>, local: Seq<Entry>, ea: Entry, eb: Entry)
    requires
        distinct_ids(cloud),
        codes_unique(as_map(cloud)),
        updated(local, cloud).contains(ea),
        updated(local, cloud).contains(eb),
        ea.user.id != eb.user.id,
    ensures
        ea.user.code != eb.user.code,
{
    law_updated(local, cloud, ea);
    law_updated(local, cloud, eb);
    lemma_entry_record(cloud, ea);
    lemma_entry_record(cloud, eb);
    assert(as_map(cloud)[ea.user.id].user.code != as_map(cloud)[eb.user.id].user.code);
}

proof fn lemma_updated_and_placeholder(
    cloud: Seq<Entry>,
    local: Seq<Entry>,
    rec: Seq<Recycle>,
    e: Entry,
    i: int,
)
    requires
        all_fresh(rec, local, cloud),
        updated(local, cloud).contains(e),
        0 <= i < rec.len(),
    ensures
        e.user.code != rec[i].code@,
{
    law_updated(local, cloud, e);
    lemma_fresh(rec, local, cloud, i);
    let k = choose|k: int| 0 <= k < cloud.len() && cloud[k] == e;
    assert(cloud[k].user.code != rec[i].code@);
}

proof fn lemma_updated_and_kept(
    cloud: Seq<Entry>,
    local: Seq<Entry>,
    rec: Seq<Recycle>,
    e: Entry,
    b: i64,
)
    requires
        distinct_ids(cloud),
        codes_unique(as_map(cloud)),
        codes_unique(as_map(local)),
        recycles_for(
            rec,
            recycled(local, updated(local, cloud), updated(local, cloud)),
            local,
            cloud,
        ),
        updated(local, cloud).contains(e),
        forall|i: int| 0 <= i < rec.len() ==> (#[trigger] rec[i]).user_id != b,
        has_id(local, b),
        has_id(cloud, b),
        e.user.id != b,
    ensures
        e.user.code != as_map(local)[b].user.code,
{
    let u = updated(local, cloud);
    let code = as_map(local)[b].user.code;
    law_roster_map(local, b);
    law_roster_map(cloud, b);
    law_updated(local, cloud, e);
    lemma_entry_record(cloud, e);
    let cb = entry_of(cloud, b);
    lemma_position_of(cloud, b);
    assert(cloud.contains(cb));
    if differs(local, cb) {
        law_updated(local, cloud, cb);
        let kb = choose|k: int| 0 <= k < u.len() && u[k] == cb;
        if must_recycle(local, u, u[kb]) {
            lemma_recycled_has(local, u, u, kb);
            let r = recycled(local, u, u);
            let i = choose|i: int| 0 <= i < r.len() && (#[trigger] r[i]).user.id == b;
            assert(rec[i].user_id == b);
        }
        assert(!claimed(local, u, code));
        let ka = choose|k: int| 0 <= k < u.len() && u[k] == e;
        assert(!takes(local, u[ka], code));
        if e.user.code == code {
            reveal(takes);
            law_roster_map(local, e.user.id);
            assert(as_map(local)[e.user.id].user.code != as_map(local)[b].user.code);
        }
    } else {
        assert(entry_of(local, b).agrees(cb));
        assert(as_map(cloud)[e.user.id].user.code != as_map(cloud)[b].user.code);
    }
}

/// The state after the delete steps of the plan for `local` and `cloud`.
pub open spec fn after_deletes(
    local: Seq<Entry>,
    cloud: Seq<Entry>,
    w: Option<Timestamp>,
) -> State {
    run(State { users: as_map(local), watermark: w }, delete_steps(deleted_ids(local, cloud)))
}

/// The state after the delete and recycle steps.
pub open spec fn after_recycles(
    local: Seq<Entry>,
    cloud: Seq<Entry>,
    rec: Seq<Recycle>,
    w: Option<Timestamp>,
) -> State {
    run(after_deletes(local, cloud, w), recycle_steps(rec))
}

/// The state after the delete and recycle steps and the first `j` updates.
pub open spec fn after_some_updates(
    local: Seq<Entry>,
    cloud: Seq<Entry>,
    rec: Seq<Recycle>,
    w: Option<Timestamp>,
    j: int,
) -> State {
    run(after_recycles(local, cloud, rec, w), update_steps(updated(local, cloud).take(j)))
}

pub(crate) proof fn lemma_after_deletes(local: Seq<Entry>, cloud: Seq<Entry>, w: Option<Timestamp>)
    ensures
        part_of(after_deletes(local, cloud, w).users, as_map(local)),
        forall|id: i64| #[trigger]
            after_deletes(local, cloud, w).users.contains_key(id) <==> has_id(local, id) && has_id(
                cloud,
                id,
            ),
{
    let s0 = State { users: as_map(local), watermark: w };
    lemma_delete_phase(s0, deleted_ids(local, cloud));
    assert forall|id: i64| #[trigger]
        after_deletes(local, cloud, w).users.contains_key(id) <==> has_id(local, id) && has_id(
            cloud,
            id,
        ) by {
        law_deleted_ids(local, cloud, id);
        law_roster_map(local, id);
    }
}

proof fn lemma_take_distinct(u: Seq<Entry>, j: int)
    requires
        distinct_ids(u),
        0 <= j <= u.len(),
    ensures
        distinct_ids(u.take(j)),
{
    let q = u.take(j);
    assert forall|a: int, b: int| 0 <= a < b < q.len() implies (#[trigger] q[a]).user.id != (
    #[trigger] q[b]).user.id by {
        assert(u[a].user.id != u[b].user.id);
    }
}

/// The user `x` holds the code of an updated cloud entry of its id.
pub open spec fn holds_new_code(
    t: Map<i64, Record>,
    local: Seq<Entry>,
    cloud: Seq<Entry>,
    x: i64,
) -> bool {
    exists|e: Entry|
        #[trigger] updated(local, cloud).contains(e) && e.user.id == x && t[x].user.code
            == e.user.code
}

/// The user `x` holds a placeholder.
pub open spec fn holds_placeholder(t: Map<i64, Record>, rec: Seq<Recycle>, x: i64) -> bool {
    exists|i: int|
        0 <= i < rec.len() && (#[trigger] rec[i]).user_id == x && t[x].user.code
            == rec[i].code@
}

/// The user `x` holds its local code, and no recycle step names it.
pub open spec fn holds_old_code(
    t: Map<i64, Record>,
    local: Seq<Entry>,
    rec: Seq<Recycle>,
    x: i64,
) -> bool {
    (forall|i: int| 0 <= i < rec.len() ==> (#[trigger] rec[i]).user_id != x) && t[x].user.code
        == as_map(local)[x].user.code
}

proof fn lemma_code_while_updating(
    local: Seq<Entry>,
    cloud: Seq<Entry>,
    rec: Seq<Recycle>,
    w: Option<Timestamp>,
    j: int,
    x: i64,
)
    requires
        distinct_ids(cloud),
        0 <= j <= updated(local, cloud).len(),
        after_some_updates(local, cloud, rec, w, j).users.contains_key(x),
    ensures
        has_id(local, x),
        has_id(cloud, x),
        after_recycles(local, cloud, rec, w).users.contains_key(x),
        ({
            let t = after_some_updates(local, cloud, rec, w, j).users;
            let s2 = after_recycles(local, cloud, rec, w).users;
            ||| holds_new_code(t, local, cloud, x)
            ||| t[x] == s2[x] && holds_placeholder(t, rec, x)
            ||| t[x] == s2[x] && holds_old_code(t, local, rec, x)
        }),
{
    let u = updated(local, cloud);
    let q = u.take(j);
    let s1 = after_deletes(local, cloud, w);
    let s2 = after_recycles(local, cloud, rec, w);
    let t = after_some_updates(local, cloud, rec, w, j).users;
    lemma_after_deletes(local, cloud, w);
    lemma_recycle_phase(s1, rec);
    lemma_update_phase(s2, q);
    assert(s2.users.dom().contains(x));
    assert(s1.users.dom().contains(x));
    assert(s1.users.contains_key(x));
    if has_id(q, x) {
        let k = choose|k: int| 0 <= k < q.len() && (#[trigger] q[k]).user.id == x;
        lemma_updated_distinct(local, cloud);
        lemma_take_distinct(u, j);
        lemma_update_named(s2, q, k);
        assert(q[k] == u[k]);
        assert(u.contains(u[k]));
        assert(holds_new_code(t, local, cloud, x));
    } else {
        lemma_update_untouched(s2, q, x);
        lemma_recycle_result(s1, rec, x);
        assert(s1.users[x] == as_map(local)[x]);
    }
}

proof fn lemma_pair_while_updating(
    local: Seq<Entry>,
    cloud: Seq<Entry>,
    rec: Seq<Recycle>,
    w: Option<Timestamp>,
    j: int,
    a: i64,
    b: i64,
)
    requires
        distinct_ids(cloud),
        codes_unique(as_map(local)),
        codes_unique(as_map(cloud)),
        recycles_for(
            rec,
            recycled(local, updated(local, cloud), updated(local, cloud)),
            local,
            cloud,
        ),
        0 <= j <= updated(local, cloud).len(),
        after_some_updates(local, cloud, rec, w, j).users.contains_key(a),
        after_some_updates(local, cloud, rec, w, j).users.contains_key(b),
        a != b,
    ensures
        after_some_updates(local, cloud, rec, w, j).users[a].user.code != after_some_updates(
            local,
            cloud,
            rec,
            w,
            j,
        ).users[b].user.code,
{
    let t = after_some_updates(local, cloud, rec, w, j).users;
    let s1 = after_deletes(local, cloud, w);
    let s2 = after_recycles(local, cloud, rec, w).users;
    let r = recycled(local, updated(local, cloud), updated(local, cloud));
    lemma_code_while_updating(local, cloud, rec, w, j, a);
    lemma_code_while_updating(local, cloud, rec, w, j, b);
    lemma_all_fresh(rec, r, local, cloud);
    let a_new = holds_new_code(t, local, cloud, a);
    let b_new = holds_new_code(t, local, cloud, b);
    if a_new && b_new {
        let ea = choose|e: Entry|
            #[trigger] updated(local, cloud).contains(e) && e.user.id == a && t[a].user.code
                == e.user.code;
        let eb = choose|e: Entry|
            #[trigger] updated(local, cloud).contains(e) && e.user.id == b && t[b].user.code
                == e.user.code;
        lemma_two_updated(cloud, local, ea, eb);
    } else if a_new {
        let ea = choose|e: Entry|
            #[trigger] updated(local, cloud).contains(e) && e.user.id == a && t[a].user.code
                == e.user.code;
        if holds_placeholder(t, rec, b) {
            let i = choose|i: int|
                0 <= i < rec.len() && (#[trigger] rec[i]).user_id == b && t[b].user.code
                    == rec[i].code@;
            lemma_updated_and_placeholder(cloud, local, rec, ea, i);
        } else {
            lemma_updated_and_kept(cloud, local, rec, ea, b);
        }
    } else if b_new {
        let eb = choose|e: Entry|
            #[trigger] updated(local, cloud).contains(e) && e.user.id == b && t[b].user.code
                == e.user.code;
        if holds_placeholder(t, rec, a) {
            let i = choose|i: int|
                0 <= i < rec.len() && (#[trigger] rec[i]).user_id == a && t[a].user.code
                    == rec[i].code@;
            lemma_updated_and_placeholder(cloud, local, rec, eb, i);
        } else {
            lemma_updated_and_kept(cloud, local, rec, eb, a);
        }
    } else {
        lemma_after_deletes(local, cloud, w);
        lemma_unique_while_recycling(s1, local, cloud, rec);
        assert(s2[a].user.code != s2[b].user.code);
    }
}

/// While users are updated, no two users share a code.
pub(crate) proof fn lemma_unique_while_updating(
    local: Seq<Entry>,
    cloud: Seq<Entry>,
    rec: Seq<Recycle>,
    w: Option<Timestamp>,
    j: int,
)
    requires
        distinct_ids(cloud),
        codes_unique(as_map(local)),
        codes_unique(as_map(cloud)),
        recycles_for(
            rec,
            recycled(local, updated(local, cloud), updated(local, cloud)),
            local,
            cloud,
        ),
        0 <= j <= updated(local, cloud).len(),
    ensures
        codes_unique(after_some_updates(local, cloud, rec, w, j).users),
{
    let t = after_some_updates(local, cloud, rec, w, j).users;
    assert forall|a: i64, b: i64|
        t.contains_key(a) && t.contains_key(b) && a != b implies (#[trigger] t[a]).user.code != (
    #[trigger] t[b]).user.code by {
        lemma_pair_while_updating(local, cloud, rec, w, j, a, b);
    }
}

/// A created entry is an entry of the cloud roster.
pub(crate) proof fn lemma_created_in_cloud(local: Seq<Entry>, cloud: Seq<Entry>, e: Entry)
    requires
        created(local, cloud).contains(e),
    ensures
        cloud.contains(e),
    decreases cloud.len(),
{
    if cloud.len() > 0 {
        let front = cloud.drop_last();
        let rest = created(local, front);
        let all = created(local, cloud);
        let k = choose|k: int| 0 <= k < all.len() && all[k] == e;
        if k < rest.len() {
            assert(rest[k] == e);
            lemma_created_in_cloud(local, front, e);
            let j = choose|j: int| 0 <= j < front.len() && front[j] == e;
            assert(cloud[j] == e);
        } else {
            assert(cloud[cloud.len() - 1] == e);
        }
    }
}

/// The state after the delete, recycle and update steps and the first `j`
/// creates.
pub open spec fn after_some_creates(
    local: Seq<Entry>,
    cloud: Seq<Entry>,
    rec: Seq<Recycle>,
    w: Option<Timestamp>,
    j: int,
) -> State {
    run(
        run(after_recycles(local, cloud, rec, w), update_steps(updated(local, cloud))),
        create_steps(created(local, cloud).take(j)),
    )
}

proof fn lemma_part_while_creating(
    local: Seq<Entry>,
    cloud: Seq<Entry>,
    rec: Seq<Recycle>,
    w: Option<Timestamp>,
    j: int,
    id: i64,
)
    requires
        distinct_ids(cloud),
        recycles_for(
            rec,
            recycled(local, updated(local, cloud), updated(local, cloud)),
            local,
            cloud,
        ),
        0 <= j <= created(local, cloud).len(),
        after_some_creates(local, cloud, rec, w, j).users.contains_key(id),
    ensures
        as_map(cloud).contains_key(id),
        after_some_creates(local, cloud, rec, w, j).users[id] == as_map(cloud)[id],
{
    let c = created(local, cloud);
    let q = c.take(j);
    let s3 = run(after_recycles(local, cloud, rec, w), update_steps(updated(local, cloud)));
    let s4 = after_user_steps(local, cloud, rec, w);
    assert(s4 == run(s3, create_steps(c)));
    lemma_user_steps_converge(local, cloud, rec, w);
    lemma_create_phase(s3, c);
    lemma_create_phase(s3, q);
    lemma_joined(s3.users, c, id);
    lemma_joined(s3.users, q, id);
    if !s3.users.contains_key(id) {
        law_roster_map(q, id);
        lemma_position_of(q, id);
        let e = entry_of(q, id);
        assert(e == c[position_of(q, id)]);
        assert(c.contains(e));
        lemma_created_in_cloud(local, cloud, e);
        lemma_entry_record(cloud, e);
    }
}

/// While users are created, no two users share a code.
pub(crate) proof fn lemma_unique_while_creating(
    local: Seq<Entry>,
    cloud: Seq<Entry>,
    rec: Seq<Recycle>,
    w: Option<Timestamp>,
    j: int,
)
    requires
        distinct_ids(cloud),
        codes_unique(as_map(cloud)),
        recycles_for(
            rec,
            recycled(local, updated(local, cloud), updated(local, cloud)),
            local,
            cloud,
        ),
        0 <= j <= created(local, cloud).len(),
    ensures
        codes_unique(after_some_creates(local, cloud, rec, w, j).users),
{
    let x = after_some_creates(local, cloud, rec, w, j).users;
    assert forall|id: i64| #[trigger] x.contains_key(id) implies as_map(cloud).contains_key(id)
        && x[id] == as_map(cloud)[id] by {
        lemma_part_while_creating(local, cloud, rec, w, j, id);
    }
    lemma_part_unique(x, as_map(cloud));
}

/// The first `k` elements of a concatenation.
pub(crate) proof fn lemma_take_of_append(a: Seq<Step>, b: Seq<Step>, k: int)
    requires
        0 <= k <= a.len() + b.len(),
    ensures
        (a + b).take(k) == if k <= a.len() {
            a.take(k)
        } else {
            a + b.take(k - a.len())
        },
{
    if k <= a.len() {
        assert((a + b).take(k) =~= a.take(k));
    } else {
        assert((a + b).take(k) =~= a + b.take(k - a.len()));
    }
}

/// The first `k` steps of five phases lie within one phase, behind the
/// phases before it.
pub(crate) proof fn lemma_prefix_of_phases(
    d: Seq<Step>,
    r: Seq<Step>,
    u: Seq<Step>,
    c: Seq<Step>,
    w: Seq<Step>,
    k: int,
)
    requires
        0 <= k <= d.len() + r.len() + u.len() + c.len() + w.len(),
    ensures
        (d + r + u + c + w).take(k) == if k <= d.len() {
            d.take(k)
        } else if k <= d.len() + r.len() {
            d + r.take(k - d.len())
        } else if k <= d.len() + r.len() + u.len() {
            d + r + u.take(k - d.len() - r.len())
        } else if k <= d.len() + r.len() + u.len() + c.len() {
            d + r + u + c.take(k - d.len() - r.len() - u.len())
        } else {
            d + r + u + c + w.take(k - d.len() - r.len() - u.len() - c.len())
        },
{
    lemma_take_of_append(d + r + u + c, w, k);
    if k <= d.len() + r.len() + u.len() + c.len() {
        lemma_take_of_append(d + r + u, c, k);
        if k <= d.len() + r.len() + u.len() {
            lemma_take_of_append(d + r, u, k);
            if k <= d.len() + r.len() {
                lemma_take_of_append(d, r, k);
            }
        }
    }
}

proof fn lemma_unique_in_delete_phase(
    local: Seq<Entry>,
    cloud: Seq<Entry>,
    w: Option<Timestamp>,
    k: int,
)
    requires
        codes_unique(as_map(local)),
        0 <= k <= delete_steps(deleted_ids(local, cloud)).len(),
    ensures
        codes_unique(
            run(
                State { users: as_map(local), watermark: w },
                delete_steps(deleted_ids(local, cloud)).take(k),
            ).users,
        ),
{
    let d = delete_steps(deleted_ids(local, cloud));
    let s0 = State { users: as_map(local), watermark: w };
    if k == 0 {
        assert(d.take(0) =~= Seq::<Step>::empty());
    } else {
        assert(d.take(k) =~= d);
        lemma_after_deletes(local, cloud, w);
        lemma_part_unique(after_deletes(local, cloud, w).users, as_map(local));
    }
}

proof fn lemma_unique_in_recycle_phase(
    local: Seq<Entry>,
    cloud: Seq<Entry>,
    rec: Seq<Recycle>,
    w: Option<Timestamp>,
    j: int,
)
    requires
        codes_unique(as_map(local)),
        recycles_for(
            rec,
            recycled(local, updated(local, cloud), updated(local, cloud)),
            local,
            cloud,
        ),
        0 <= j <= rec.len(),
    ensures
        codes_unique(
            run(
                State { users: as_map(local), watermark: w },
                delete_steps(deleted_ids(local, cloud)) + recycle_steps(rec).take(j),
            ).users,
        ),
{
    let s0 = State { users: as_map(local), watermark: w };
    let d = delete_steps(deleted_ids(local, cloud));
    assert(recycle_steps(rec).take(j) =~= recycle_steps(rec.take(j)));
    lemma_run_append(s0, d, recycle_steps(rec.take(j)));
    lemma_after_deletes(local, cloud, w);
    lemma_all_fresh(
        rec,
        recycled(local, updated(local, cloud), updated(local, cloud)),
        local,
        cloud,
    );
    lemma_fresh_prefix(rec, local, cloud, j);
    lemma_unique_while_recycling(after_deletes(local, cloud, w), local, cloud, rec.take(j));
}

proof fn lemma_unique_in_update_phase(
    local: Seq<Entry>,
    cloud: Seq<Entry>,
    rec: Seq<Recycle>,
    w: Option<Timestamp>,
    j: int,
)
    requires
        distinct_ids(cloud),
        codes_unique(as_map(local)),
        codes_unique(as_map(cloud)),
        recycles_for(
            rec,
            recycled(local, updated(local, cloud), updated(local, cloud)),
            local,
            cloud,
        ),
        0 <= j <= updated(local, cloud).len(),
    ensures
        codes_unique(
            run(
                State { users: as_map(local), watermark: w },
                delete_steps(deleted_ids(local, cloud)) + recycle_steps(rec) + update_steps(
                    updated(local, cloud),
                ).take(j),
            ).users,
        ),
{
    let s0 = State { users: as_map(local), watermark: w };
    let d = delete_steps(deleted_ids(local, cloud));
    let r = recycle_steps(rec);
    let u = updated(local, cloud);
    assert(update_steps(u).take(j) =~= update_steps(u.take(j)));
    lemma_run_append(s0, d + r, update_steps(u.take(j)));
    lemma_run_append(s0, d, r);
    lemma_unique_while_updating(local, cloud, rec, w, j);
}

proof fn lemma_unique_in_create_phase(
    local: Seq<Entry>,
    cloud: Seq<Entry>,
    rec: Seq<Recycle>,
    w: Option<Timestamp>,
    tail: Seq<Step>,
    j: int,
)
    requires
        distinct_ids(cloud),
        codes_unique(as_map(cloud)),
        recycles_for(
            rec,
            recycled(local, updated(local, cloud), updated(local, cloud)),
            local,
            cloud,
        ),
        0 <= j <= created(local, cloud).len(),
        tail.len() == 0 || (j == created(local, cloud).len() && exists|m: Option<Timestamp>|
            tail == watermark_steps(m)),
    ensures
        codes_unique(
            run(
                State { users: as_map(local), watermark: w },
                delete_steps(deleted_ids(local, cloud)) + recycle_steps(rec) + update_steps(
                    updated(local, cloud),
                ) + create_steps(created(local, cloud)).take(j) + tail,
            ).users,
        ),
{
    let s0 = State { users: as_map(local), watermark: w };
    let d = delete_steps(deleted_ids(local, cloud));
    let r = recycle_steps(rec);
    let u = update_steps(updated(local, cloud));
    let c = created(local, cloud);
    assert(create_steps(c).take(j) =~= create_steps(c.take(j)));
    let cj = create_steps(c.take(j));
    lemma_run_append(s0, d + r + u + cj, tail);
    lemma_run_append(s0, d + r + u, cj);
    lemma_run_append(s0, d + r, u);
    lemma_run_append(s0, d, r);
    let x = after_some_creates(local, cloud, rec, w, j);
    assert(run(s0, d + r + u + cj) == x);
    lemma_unique_while_creating(local, cloud, rec, w, j);
    if tail.len() > 0 {
        let m = choose|m: Option<Timestamp>| tail == watermark_steps(m);
        lemma_watermark_phase(x, m);
    }
}

/// Codes stay unique: where no two local users share a code and no two
/// users of a cloud roster without repeated ids share one, no two users
/// share a code after any number of steps of the plan.
pub proof fn law_codes_stay_unique(
    p: SyncPlan,
    local: Seq<Entry>,
    cloud: Seq<Entry>,
    current: Option<Timestamp>,
    new: Timestamp,
    k: int,
)
    requires
        p.is_for(local, cloud, current, new),
        distinct_ids(cloud),
        codes_unique(as_map(local)),
        codes_unique(as_map(cloud)),
        0 <= k <= p.steps().len(),
    ensures
        codes_unique(
            run(State { users: as_map(local), watermark: current }, p.steps().take(k)).users,
        ),
{
    let d = delete_steps(p.delete_ids@);
    let r = recycle_steps(p.recycle@);
    let u = update_steps(entries(p.update@));
    let c = create_steps(entries(p.create@));
    let w = watermark_steps(p.watermark);
    lemma_prefix_of_phases(d, r, u, c, w, k);
    if k <= d.len() {
        lemma_unique_in_delete_phase(local, cloud, current, k);
    } else if k <= d.len() + r.len() {
        lemma_unique_in_recycle_phase(local, cloud, p.recycle@, current, k - d.len());
    } else if k <= d.len() + r.len() + u.len() {
        lemma_unique_in_update_phase(local, cloud, p.recycle@, current, k - d.len() - r.len());
    } else if k <= d.len() + r.len() + u.len() + c.len() {
        let j = k - d.len() - r.len() - u.len();
        assert(d + r + u + c.take(j) + Seq::<Step>::empty() =~= d + r + u + c.take(j));
        lemma_unique_in_create_phase(
            local,
            cloud,
            p.recycle@,
            current,
            Seq::<Step>::empty(),
            j,
        );
    } else {
        let j = c.len() as int;
        assert(c.take(j) =~= c);
        assert(w.take(k - d.len() - r.len() - u.len() - c.len()) =~= w);
        lemma_unique_in_create_phase(local, cloud, p.recycle@, current, w, j);
    }
}

} // verus!
