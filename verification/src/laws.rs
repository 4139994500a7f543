//! What holds of every plan: the store converges to the cloud's roster, a
//! roster that is already in place is left alone, and no two users share a
//! code at any step of the way.

use crate::diff::{created, deleted_ids, differs, updated};
use crate::domain::Timestamp;
use crate::plan::{
    create_steps, delete_steps, effect, recycle_steps, run, update_steps, watermark_change,
    watermark_steps, State, Step, SyncPlan,
};
use crate::recycle::{recycled, recycles_for, Recycle};
use crate::roster::{
    as_map, distinct_ids, entries, entry_of, has_id, law_roster_map, lemma_has_id_last,
    lemma_position_of, position_of, Entry, Record,
};
use vstd::prelude::*;

verus! {

/// Running two sequences of steps one after the other is running their
/// concatenation.
pub(crate) proof fn lemma_run_append(s: State, a: Seq<Step>, b: Seq<Step>)
    ensures
        run(s, a + b) == run(run(s, a), b),
    decreases b.len(),
{
    if b.len() == 0 {
        assert(a + b =~= a);
    } else {
        assert((a + b).drop_last() =~= a + b.drop_last());
        assert((a + b).last() == b.last());
        lemma_run_append(s, a, b.drop_last());
    }
}

/// An id is deleted exactly when the local roster has it and the cloud roster
/// does not.
pub proof fn law_deleted_ids(local: Seq<Entry>, cloud: Seq<Entry>, id: i64)
    ensures
        deleted_ids(local, cloud).contains(id) <==> has_id(local, id) && !has_id(cloud, id),
    decreases local.len(),
{
    if local.len() > 0 {
        let front = local.drop_last();
        let last = local.last();
        law_deleted_ids(front, cloud, id);
        let rest = deleted_ids(front, cloud);
        let all = deleted_ids(local, cloud);
        if has_id(local, id) {
            let k = choose|k: int| 0 <= k < local.len() && (#[trigger] local[k]).user.id == id;
            if k < front.len() {
                assert(front[k].user.id == id);
            }
        }
        if has_id(front, id) {
            let k = choose|k: int| 0 <= k < front.len() && (#[trigger] front[k]).user.id == id;
            assert(local[k].user.id == id);
        }
        if last.user.id == id {
            assert(local[local.len() - 1].user.id == id);
        }
        if rest.contains(id) {
            let k = choose|k: int| 0 <= k < rest.len() && rest[k] == id;
            assert(all[k] == id);
        }
        if all.contains(id) {
            let k = choose|k: int| 0 <= k < all.len() && all[k] == id;
            if k < rest.len() {
                assert(rest[k] == id);
            }
        }
        if !has_id(cloud, last.user.id) && last.user.id == id {
            assert(all[rest.len() as int] == id);
        }
    }
}

/// The delete steps remove exactly the given ids.
pub(crate) proof fn lemma_delete_phase(s: State, ids: Seq<i64>)
    ensures
        run(s, delete_steps(ids)).users == s.users.remove_keys(ids.to_set()),
        run(s, delete_steps(ids)).watermark == s.watermark,
{
    let d = delete_steps(ids);
    if ids.len() == 0 {
        assert(s.users.remove_keys(ids.to_set()) =~= s.users);
    } else {
        assert(d.drop_last() =~= Seq::<Step>::empty());
        assert(run(s, d.drop_last()) == s);
    }
}

/// The recycle steps keep the set of users and the watermark.
pub(crate) proof fn lemma_recycle_phase(s: State, r: Seq<Recycle>)
    ensures
        run(s, recycle_steps(r)).watermark == s.watermark,
        run(s, recycle_steps(r)).users.dom() == s.users.dom(),
    decreases r.len(),
{
    let steps = recycle_steps(r);
    if r.len() > 0 {
        let front = r.drop_last();
        assert(steps.drop_last() =~= recycle_steps(front));
        lemma_recycle_phase(s, front);
        assert(run(s, steps) == effect(run(s, recycle_steps(front)), steps.last()));
        assert(run(s, steps).users.dom() =~= s.users.dom());
    }
}

/// The recycle steps change no user that they do not name.
pub(crate) proof fn lemma_recycle_untouched(s: State, r: Seq<Recycle>, id: i64)
    requires
        forall|i: int| 0 <= i < r.len() ==> (#[trigger] r[i]).user_id != id,
    ensures
        s.users.contains_key(id) ==> run(s, recycle_steps(r)).users[id] == s.users[id],
    decreases r.len(),
{
    let steps = recycle_steps(r);
    if r.len() > 0 {
        let front = r.drop_last();
        assert(steps.drop_last() =~= recycle_steps(front));
        assert forall|i: int| 0 <= i < front.len() implies (#[trigger] front[i]).user_id != id by {
            assert(r[i].user_id != id);
        }
        lemma_recycle_untouched(s, front, id);
        assert(r[r.len() - 1].user_id != id);
        assert(run(s, steps) == effect(run(s, recycle_steps(front)), steps.last()));
    }
}

/// The update steps keep the set of users and the watermark.
pub(crate) proof fn lemma_update_phase(s: State, u: Seq<Entry>)
    ensures
        run(s, update_steps(u)).watermark == s.watermark,
        run(s, update_steps(u)).users.dom() == s.users.dom(),
    decreases u.len(),
{
    let steps = update_steps(u);
    if u.len() > 0 {
        let front = u.drop_last();
        assert(steps.drop_last() =~= update_steps(front));
        lemma_update_phase(s, front);
        assert(run(s, steps) == effect(run(s, update_steps(front)), steps.last()));
        assert(run(s, steps).users.dom() =~= s.users.dom());
    }
}

/// The update steps change no user that they do not name.
pub(crate) proof fn lemma_update_untouched(s: State, u: Seq<Entry>, id: i64)
    requires
        !has_id(u, id),
    ensures
        s.users.contains_key(id) ==> run(s, update_steps(u)).users[id] == s.users[id],
    decreases u.len(),
{
    let steps = update_steps(u);
    if u.len() > 0 {
        let front = u.drop_last();
        assert(steps.drop_last() =~= update_steps(front));
        lemma_has_id_last(u, id);
        lemma_update_untouched(s, front, id);
        assert(run(s, steps) == effect(run(s, update_steps(front)), steps.last()));
    }
}

/// Where no id is repeated, the update steps give each user they name the
/// record of its entry.
pub(crate) proof fn lemma_update_named(s: State, u: Seq<Entry>, i: int)
    requires
        distinct_ids(u),
        0 <= i < u.len(),
        s.users.contains_key(u[i].user.id),
    ensures
        run(s, update_steps(u)).users[u[i].user.id] == u[i].record(),
    decreases u.len(),
{
    let steps = update_steps(u);
    let front = u.drop_last();
    assert(steps.drop_last() =~= update_steps(front));
    lemma_update_phase(s, front);
    assert(run(s, steps) == effect(run(s, update_steps(front)), steps.last()));
    assert(run(s, update_steps(front)).users.dom().contains(u[i].user.id));
    if i < front.len() {
        assert forall|a: int, b: int| 0 <= a < b < front.len() implies (#[trigger] front[a]).user.id
            != (#[trigger] front[b]).user.id by {
            assert(u[a].user.id != u[b].user.id);
        }
        assert(front[i] == u[i]);
        lemma_update_named(s, front, i);
        assert(u[i].user.id != u[u.len() - 1].user.id);
    }
}

/// `m` with the entries of `c` added in order, each unless its id is already
/// there.
pub open spec fn joined(m: Map<i64, Record>, c: Seq<Entry>) -> Map<i64, Record>
    decreases c.len(),
{
    if c.len() == 0 {
        m
    } else {
        let j = joined(m, c.drop_last());
        if j.contains_key(c.last().user.id) {
            j
        } else {
            j.insert(c.last().user.id, c.last().record())
        }
    }
}

/// `joined(m, c)` has the ids of `m` and of `c`; `m` decides where it has the
/// id, and the first entry of `c` with the id where it has not.
pub(crate) proof fn lemma_joined(m: Map<i64, Record>, c: Seq<Entry>, id: i64)
    ensures
        joined(m, c).contains_key(id) <==> m.contains_key(id) || as_map(c).contains_key(id),
        m.contains_key(id) ==> joined(m, c)[id] == m[id],
        !m.contains_key(id) && as_map(c).contains_key(id) ==> joined(m, c)[id] == as_map(c)[id],
    decreases c.len(),
{
    if c.len() > 0 {
        lemma_joined(m, c.drop_last(), id);
        lemma_joined(m, c.drop_last(), c.last().user.id);
    }
}

/// The create steps add the users they name that the store does not have
/// yet, and change no other user.
pub(crate) proof fn lemma_create_phase(s: State, c: Seq<Entry>)
    ensures
        run(s, create_steps(c)).watermark == s.watermark,
        run(s, create_steps(c)).users == joined(s.users, c),
    decreases c.len(),
{
    let steps = create_steps(c);
    if c.len() > 0 {
        assert(steps.drop_last() =~= create_steps(c.drop_last()));
        lemma_create_phase(s, c.drop_last());
        assert(run(s, steps) == effect(run(s, create_steps(c.drop_last())), steps.last()));
    }
}

/// An entry is updated exactly when the cloud roster holds it and it differs
/// from the local entry of its id.
pub proof fn law_updated(local: Seq<Entry>, cloud: Seq<Entry>, e: Entry)
    ensures
        updated(local, cloud).contains(e) <==> cloud.contains(e) && differs(local, e),
    decreases cloud.len(),
{
    if cloud.len() > 0 {
        let front = cloud.drop_last();
        let last = cloud.last();
        law_updated(local, front, e);
        let rest = updated(local, front);
        let all = updated(local, cloud);
        if cloud.contains(e) {
            let k = choose|k: int| 0 <= k < cloud.len() && cloud[k] == e;
            if k < front.len() {
                assert(front[k] == e);
            }
        }
        if front.contains(e) {
            let k = choose|k: int| 0 <= k < front.len() && front[k] == e;
            assert(cloud[k] == e);
        }
        if last == e {
            assert(cloud[cloud.len() - 1] == e);
        }
        if rest.contains(e) {
            let k = choose|k: int| 0 <= k < rest.len() && rest[k] == e;
            assert(all[k] == e);
        }
        if all.contains(e) {
            let k = choose|k: int| 0 <= k < all.len() && all[k] == e;
            if k < rest.len() {
                assert(rest[k] == e);
            }
        }
        if differs(local, last) && last == e {
            assert(all[rest.len() as int] == e);
        }
    }
}

/// The updated entries of a roster without repeated ids have no repeated
/// ids.
pub(crate) proof fn lemma_updated_distinct(local: Seq<Entry>, cloud: Seq<Entry>)
    requires
        distinct_ids(cloud),
    ensures
        distinct_ids(updated(local, cloud)),
    decreases cloud.len(),
{
    if cloud.len() > 0 {
        let front = cloud.drop_last();
        let last = cloud.last();
        assert forall|i: int, j: int| 0 <= i < j < front.len() implies (#[trigger] front[i]).user.id
            != (#[trigger] front[j]).user.id by {
            assert(cloud[i].user.id != cloud[j].user.id);
        }
        lemma_updated_distinct(local, front);
        let rest = updated(local, front);
        let all = updated(local, cloud);
        assert forall|i: int, j: int| 0 <= i < j < all.len() implies (#[trigger] all[i]).user.id
            != (#[trigger] all[j]).user.id by {
            if j < rest.len() {
                assert(rest[i].user.id != rest[j].user.id);
            } else {
                assert(all[j] == last);
                assert(rest.contains(rest[i]));
                law_updated(local, front, rest[i]);
                let k = choose|k: int| 0 <= k < front.len() && front[k] == rest[i];
                assert(cloud[k].user.id != cloud[cloud.len() - 1].user.id);
            }
        }
    }
}

/// The created entries, as a map, are the cloud entries whose id the local
/// roster does not have.
pub proof fn law_created(local: Seq<Entry>, cloud: Seq<Entry>, id: i64)
    ensures
        as_map(created(local, cloud)).contains_key(id) <==> !has_id(local, id) && as_map(
            cloud,
        ).contains_key(id),
        as_map(created(local, cloud)).contains_key(id) ==> as_map(created(local, cloud))[id]
            == as_map(cloud)[id],
    decreases cloud.len(),
{
    if cloud.len() > 0 {
        let front = cloud.drop_last();
        let last = cloud.last();
        law_created(local, front, id);
        law_created(local, front, last.user.id);
        let rest = created(local, front);
        if !has_id(local, last.user.id) {
            assert(rest.push(last).drop_last() =~= rest);
        }
    }
}

/// Every recycled entry has the id of a user of `part`.
pub(crate) proof fn lemma_recycled_ids(local: Seq<Entry>, upd: Seq<Entry>, part: Seq<Entry>, i: int)
    requires
        0 <= i < recycled(local, upd, part).len(),
    ensures
        has_id(part, recycled(local, upd, part)[i].user.id),
    decreases part.len(),
{
    if part.len() > 0 {
        let front = part.drop_last();
        let last = part.last();
        let rest = recycled(local, upd, front);
        let id = recycled(local, upd, part)[i].user.id;
        lemma_has_id_last(part, id);
        if i < rest.len() {
            lemma_recycled_ids(local, upd, front, i);
        } else {
            lemma_position_of(local, last.user.id);
        }
    }
}

proof fn lemma_not_updated(local: Seq<Entry>, cloud: Seq<Entry>, id: i64)
    requires
        distinct_ids(cloud),
        has_id(cloud, id),
        !differs(local, entry_of(cloud, id)),
    ensures
        !has_id(updated(local, cloud), id),
{
    let u = updated(local, cloud);
    if has_id(u, id) {
        let k = choose|k: int| 0 <= k < u.len() && (#[trigger] u[k]).user.id == id;
        assert(u.contains(u[k]));
        law_updated(local, cloud, u[k]);
        let j = choose|j: int| 0 <= j < cloud.len() && cloud[j] == u[k];
        lemma_position_of(cloud, id);
        let p = position_of(cloud, id);
        if j < p {
            assert(cloud[j].user.id != cloud[p].user.id);
        } else if p < j {
            assert(cloud[p].user.id != cloud[j].user.id);
        }
    }
}

proof fn lemma_not_recycled(
    local: Seq<Entry>,
    cloud: Seq<Entry>,
    rec: Seq<Recycle>,
    id: i64,
)
    requires
        recycles_for(
            rec,
            recycled(local, updated(local, cloud), updated(local, cloud)),
            local,
            cloud,
        ),
        !has_id(updated(local, cloud), id),
    ensures
        forall|i: int| 0 <= i < rec.len() ==> (#[trigger] rec[i]).user_id != id,
{
    let u = updated(local, cloud);
    assert forall|i: int| 0 <= i < rec.len() implies (#[trigger] rec[i]).user_id != id by {
        lemma_recycled_ids(local, u, u, i);
    }
}

/// The state after the delete, recycle, update and create steps of the plan for
/// `local` and `cloud` with the placeholders `rec`.
pub open spec fn after_user_steps(
    local: Seq<Entry>,
    cloud: Seq<Entry>,
    rec: Seq<Recycle>,
    w: Option<Timestamp>,
) -> State {
    run(
        run(
            run(
                run(
                    State { users: as_map(local), watermark: w },
                    delete_steps(deleted_ids(local, cloud)),
                ),
                recycle_steps(rec),
            ),
            update_steps(updated(local, cloud)),
        ),
        create_steps(created(local, cloud)),
    )
}

proof fn lemma_converges_at(
    local: Seq<Entry>,
    cloud: Seq<Entry>,
    rec: Seq<Recycle>,
    w: Option<Timestamp>,
    id: i64,
)
    requires
        distinct_ids(cloud),
        recycles_for(
            rec,
            recycled(local, updated(local, cloud), updated(local, cloud)),
            local,
            cloud,
        ),
    ensures
        after_user_steps(local, cloud, rec, w).users.contains_key(id) == as_map(cloud).contains_key(
            id,
        ),
        as_map(cloud).contains_key(id) ==> after_user_steps(local, cloud, rec, w).users[id]
            == as_map(cloud)[id],
        after_user_steps(local, cloud, rec, w).watermark == w,
{
    let u = updated(local, cloud);
    let s0 = State { users: as_map(local), watermark: w };
    let s1 = run(s0, delete_steps(deleted_ids(local, cloud)));
    let s2 = run(s1, recycle_steps(rec));
    let s3 = run(s2, update_steps(u));
    let s4 = run(s3, create_steps(created(local, cloud)));
    lemma_delete_phase(s0, deleted_ids(local, cloud));
    lemma_recycle_phase(s1, rec);
    lemma_update_phase(s2, u);
    lemma_create_phase(s3, created(local, cloud));
    law_roster_map(local, id);
    law_roster_map(cloud, id);
    law_deleted_ids(local, cloud, id);
    lemma_joined(s3.users, created(local, cloud), id);
    law_created(local, cloud, id);
    if has_id(local, id) && has_id(cloud, id) {
        assert(s1.users.contains_key(id));
        assert(s2.users.dom().contains(id));
        assert(s3.users.dom().contains(id));
        let c = entry_of(cloud, id);
        lemma_position_of(cloud, id);
        assert(cloud.contains(c));
        if differs(local, c) {
            law_updated(local, cloud, c);
            let i = choose|i: int| 0 <= i < u.len() && u[i] == c;
            lemma_updated_distinct(local, cloud);
            lemma_update_named(s2, u, i);
        } else {
            lemma_not_updated(local, cloud, id);
            lemma_not_recycled(local, cloud, rec, id);
            lemma_recycle_untouched(s1, rec, id);
            lemma_update_untouched(s2, u, id);
            assert(entry_of(local, id).agrees(c));
        }
    } else {
        assert(!s1.users.contains_key(id));
        assert(!s2.users.dom().contains(id));
        assert(!s3.users.dom().contains(id));
    }
}

pub(crate) proof fn lemma_user_steps_converge(
    local: Seq<Entry>,
    cloud: Seq<Entry>,
    rec: Seq<Recycle>,
    w: Option<Timestamp>,
)
    requires
        distinct_ids(cloud),
        recycles_for(
            rec,
            recycled(local, updated(local, cloud), updated(local, cloud)),
            local,
            cloud,
        ),
    ensures
        after_user_steps(local, cloud, rec, w).users == as_map(cloud),
        after_user_steps(local, cloud, rec, w).watermark == w,
{
    let s4 = after_user_steps(local, cloud, rec, w);
    let want = as_map(cloud);
    lemma_converges_at(local, cloud, rec, w, 0);
    assert forall|id: i64|
        #![trigger s4.users.dom().contains(id)]
        #![trigger s4.users[id]]
        s4.users.dom().contains(id) == want.dom().contains(id) && (s4.users.dom().contains(id)
            ==> s4.users[id] == want[id]) by {
        lemma_converges_at(local, cloud, rec, w, id);
    }
    assert(s4.users =~= want);
}

/// The watermark step, where there is one, sets the watermark and nothing
/// else.
pub(crate) proof fn lemma_watermark_phase(s: State, w: Option<Timestamp>)
    ensures
        run(s, watermark_steps(w)).users == s.users,
        run(s, watermark_steps(w)).watermark == if w is Some {
            w
        } else {
            s.watermark
        },
{
    let steps = watermark_steps(w);
    if w is Some {
        assert(steps.drop_last() =~= Seq::<Step>::empty());
        assert(run(s, steps.drop_last()) == s);
    }
}

pub(crate) proof fn lemma_steps_in_phases(
    s0: State,
    a: Seq<Step>,
    b: Seq<Step>,
    c: Seq<Step>,
    d: Seq<Step>,
    e: Seq<Step>,
)
    ensures
        run(s0, a + b + c + d + e) == run(run(run(run(run(s0, a), b), c), d), e),
{
    lemma_run_append(s0, a + b + c + d, e);
    lemma_run_append(s0, a + b + c, d);
    lemma_run_append(s0, a + b, c);
    lemma_run_append(s0, a, b);
}

/// Convergence: applied to the local roster, the plan for a cloud roster
/// without repeated ids leaves exactly the cloud roster, and the cloud's
/// watermark.
pub proof fn law_plan_converges(
    p: SyncPlan,
    local: Seq<Entry>,
    cloud: Seq<Entry>,
    current: Option<Timestamp>,
    new: Timestamp,
)
    requires
        p.is_for(local, cloud, current, new),
        distinct_ids(cloud),
    ensures
        run(State { users: as_map(local), watermark: current }, p.steps()).users == as_map(cloud),
        run(State { users: as_map(local), watermark: current }, p.steps()).watermark == Some(new),
{
    let s0 = State { users: as_map(local), watermark: current };
    let s4 = after_user_steps(local, cloud, p.recycle@, current);
    lemma_steps_in_phases(
        s0,
        delete_steps(p.delete_ids@),
        recycle_steps(p.recycle@),
        update_steps(entries(p.update@)),
        create_steps(entries(p.create@)),
        watermark_steps(p.watermark),
    );
    assert(run(s0, p.steps()) == run(s4, watermark_steps(p.watermark)));
    lemma_user_steps_converge(local, cloud, p.recycle@, current);
    lemma_watermark_phase(s4, p.watermark);
}

proof fn lemma_in_place(local: Seq<Entry>, cloud: Seq<Entry>)
    requires
        distinct_ids(cloud),
        as_map(local) == as_map(cloud),
    ensures
        deleted_ids(local, cloud).len() == 0,
        updated(local, cloud).len() == 0,
        created(local, cloud).len() == 0,
{
    let d = deleted_ids(local, cloud);
    if d.len() > 0 {
        assert(d.contains(d[0]));
        law_deleted_ids(local, cloud, d[0]);
        law_roster_map(local, d[0]);
        law_roster_map(cloud, d[0]);
    }
    let u = updated(local, cloud);
    if u.len() > 0 {
        let e = u[0];
        assert(u.contains(e));
        law_updated(local, cloud, e);
        let j = choose|j: int| 0 <= j < cloud.len() && cloud[j] == e;
        law_roster_map(local, e.user.id);
        law_roster_map(cloud, e.user.id);
        assert(cloud[j].user.id == e.user.id);
        lemma_position_of(cloud, e.user.id);
        let p = position_of(cloud, e.user.id);
        if j < p {
            assert(cloud[j].user.id != cloud[p].user.id);
        } else if p < j {
            assert(cloud[p].user.id != cloud[j].user.id);
        }
        assert(entry_of(local, e.user.id).record() == e.record());
    }
    let c = created(local, cloud);
    if c.len() > 0 {
        let id = c[0].user.id;
        assert(has_id(c, id));
        law_roster_map(c, id);
        law_created(local, cloud, id);
        law_roster_map(local, id);
    }
}

/// A cloud roster that is already in place is left alone: where the local
/// roster equals a cloud roster without repeated ids, the plan deletes,
/// recycles, updates and creates nothing, and its only step is the watermark
/// step, present exactly where the watermark differs.
pub proof fn law_roster_in_place(
    p: SyncPlan,
    local: Seq<Entry>,
    cloud: Seq<Entry>,
    current: Option<Timestamp>,
    new: Timestamp,
)
    requires
        p.is_for(local, cloud, current, new),
        distinct_ids(cloud),
        as_map(local) == as_map(cloud),
    ensures
        p.leaves_users(),
        p.watermark is None <==> current == Some(new),
        p.steps() == watermark_steps(watermark_change(current, new)),
{
    lemma_in_place(local, cloud);
    assert(entries(p.update@).len() == 0);
    assert(entries(p.create@).len() == 0);
    assert(recycled(local, updated(local, cloud), updated(local, cloud)).len() == 0);
    assert(p.steps() =~= watermark_steps(p.watermark));
}

/// Idempotence: a second synchronisation with the same cloud roster has
/// nothing to do, and leaves the state that the first one left.
pub proof fn law_second_run_is_empty(
    first: SyncPlan,
    second: SyncPlan,
    local: Seq<Entry>,
    after: Seq<Entry>,
    cloud: Seq<Entry>,
    current: Option<Timestamp>,
    new: Timestamp,
)
    requires
        distinct_ids(cloud),
        first.is_for(local, cloud, current, new),
        as_map(after) == run(
            State { users: as_map(local), watermark: current },
            first.steps(),
        ).users,
        second.is_for(after, cloud, Some(new), new),
    ensures
        second.steps().len() == 0,
        run(
            run(State { users: as_map(local), watermark: current }, first.steps()),
            second.steps(),
        ) == run(State { users: as_map(local), watermark: current }, first.steps()),
{
    law_plan_converges(first, local, cloud, current, new);
    law_roster_in_place(second, after, cloud, Some(new), new);
}

} // verus!
