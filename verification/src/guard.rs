//! The row guard never trips on a plan applied to the roster it was computed
//! for: every step finds the users it names, and no step creates a user
//! that is already there.

use crate::diff::{created, deleted_ids, updated};
use crate::domain::Timestamp;
use crate::laws::{
    law_created, law_deleted_ids, law_updated, lemma_create_phase, lemma_joined,
    lemma_recycle_phase, lemma_recycled_ids, lemma_run_append, lemma_update_phase,
};
use crate::plan::{
    create_steps, delete_steps, recycle_steps, run, update_steps, watermark_steps, State, Step,
    SyncPlan,
};
use crate::recycle::{recycled, recycles_for, Recycle};
use crate::roster::{as_map, distinct_ids, entries, has_id, law_roster_map, Entry, Record};
use crate::store::all_present;
use crate::unique::{
    after_deletes, after_recycles, after_some_creates, after_some_updates, lemma_after_deletes,
    lemma_created_in_cloud, lemma_prefix_of_phases,
};
use vstd::prelude::*;

verus! {

/// The step finds what it names: every user to delete once, the user to
/// recycle or to update, and no user with the id of the user to create.
pub open spec fn applies(users: Map<i64, Record>, m: Step) -> bool {
    match m {
        Step::Delete { ids } => ids.no_duplicates() && all_present(users, ids),
        Step::Recycle { user_id, code } => users.contains_key(user_id),
        Step::Update { entry } => users.contains_key(entry.user.id),
        Step::Create { entry } => !users.contains_key(entry.user.id),
        Step::SetWatermark { at } => true,
    }
}

/// Some step of `steps`, taken in order from `start`, does not find what it
/// names.
pub open spec fn trips(start: State, steps: Seq<Step>) -> bool {
    exists|k: int|
        0 <= k < steps.len() && !applies(run(start, steps.take(k)).users, #[trigger] steps[k])
}

/// Where no two local users share an id, no id is deleted twice.
pub proof fn law_deleted_once(local: Seq<Entry>, cloud: Seq<Entry>)
    requires
        distinct_ids(local),
    ensures
        deleted_ids(local, cloud).no_duplicates(),
    decreases local.len(),
{
    if local.len() > 0 {
        let front = local.drop_last();
        let last = local.last();
        assert forall|i: int, j: int| 0 <= i < j < front.len() implies (#[trigger] front[i]).user.id
            != (#[trigger] front[j]).user.id by {
            assert(local[i].user.id != local[j].user.id);
        }
        law_deleted_once(front, cloud);
        let rest = deleted_ids(front, cloud);
        let all = deleted_ids(local, cloud);
        assert forall|i: int, j: int|
            0 <= i < all.len() && 0 <= j < all.len() && i != j implies all[i] != all[j] by {
            if i < rest.len() && j < rest.len() {
                assert(rest[i] != rest[j]);
            } else {
                let older = if i < rest.len() {
                    i
                } else {
                    j
                };
                assert(rest.contains(rest[older]));
                law_deleted_ids(front, cloud, rest[older]);
                let k = choose|k: int|
                    0 <= k < front.len() && (#[trigger] front[k]).user.id == rest[older];
                assert(local[k].user.id != local[local.len() - 1].user.id);
            }
        }
    }
}

proof fn lemma_created_fresh(local: Seq<Entry>, cloud: Seq<Entry>, j: int)
    requires
        distinct_ids(cloud),
        0 <= j < created(local, cloud).len(),
    ensures
        !has_id(local, created(local, cloud)[j].user.id),
        !has_id(created(local, cloud).take(j), created(local, cloud)[j].user.id),
    decreases cloud.len(),
{
    let c = created(local, cloud);
    let id = c[j].user.id;
    assert(has_id(c, id));
    law_roster_map(c, id);
    law_created(local, cloud, id);
    if has_id(c.take(j), id) {
        let q = c.take(j);
        let i = choose|i: int| 0 <= i < q.len() && (#[trigger] q[i]).user.id == id;
        assert(c.contains(c[i]));
        assert(c.contains(c[j]));
        lemma_created_in_cloud(local, cloud, c[i]);
        lemma_created_in_cloud(local, cloud, c[j]);
        lemma_created_in_order(local, cloud, i, j);
    }
}

/// Created entries stand in the order of the cloud roster, so two of them
/// are two entries of the cloud roster.
proof fn lemma_created_in_order(local: Seq<Entry>, cloud: Seq<Entry>, i: int, j: int)
    requires
        distinct_ids(cloud),
        0 <= i < j < created(local, cloud).len(),
    ensures
        created(local, cloud)[i].user.id != created(local, cloud)[j].user.id,
    decreases cloud.len(),
{
    let front = cloud.drop_last();
    let rest = created(local, front);
    let all = created(local, cloud);
    assert forall|a: int, b: int| 0 <= a < b < front.len() implies (#[trigger] front[a]).user.id
        != (#[trigger] front[b]).user.id by {
        assert(cloud[a].user.id != cloud[b].user.id);
    }
    if j < rest.len() {
        lemma_created_in_order(local, front, i, j);
    } else {
        assert(all[j] == cloud.last());
        assert(rest.contains(rest[i]));
        lemma_created_in_cloud(local, front, rest[i]);
        let k = choose|k: int| 0 <= k < front.len() && front[k] == rest[i];
        assert(cloud[k].user.id != cloud[cloud.len() - 1].user.id);
    }
}

proof fn lemma_updated_is_common(
    local: Seq<Entry>,
    cloud: Seq<Entry>,
    w: Option<Timestamp>,
    id: i64,
)
    requires
        has_id(updated(local, cloud), id),
    ensures
        after_deletes(local, cloud, w).users.contains_key(id),
{
    let u = updated(local, cloud);
    let i = choose|i: int| 0 <= i < u.len() && (#[trigger] u[i]).user.id == id;
    assert(u.contains(u[i]));
    law_updated(local, cloud, u[i]);
    let k = choose|k: int| 0 <= k < cloud.len() && cloud[k] == u[i];
    assert(cloud[k].user.id == id);
    lemma_after_deletes(local, cloud, w);
}

proof fn lemma_delete_applies(local: Seq<Entry>, cloud: Seq<Entry>)
    requires
        deleted_ids(local, cloud).no_duplicates(),
    ensures
        applies(as_map(local), Step::Delete { ids: deleted_ids(local, cloud) }),
{
    let ids = deleted_ids(local, cloud);
    assert forall|i: int| 0 <= i < ids.len() implies as_map(local).contains_key(
        #[trigger] ids[i],
    ) by {
        assert(ids.contains(ids[i]));
        law_deleted_ids(local, cloud, ids[i]);
        law_roster_map(local, ids[i]);
    }
}

proof fn lemma_recycle_applies(
    local: Seq<Entry>,
    cloud: Seq<Entry>,
    rec: Seq<Recycle>,
    w: Option<Timestamp>,
    j: int,
)
    requires
        recycles_for(
            rec,
            recycled(local, updated(local, cloud), updated(local, cloud)),
            local,
            cloud,
        ),
        0 <= j < rec.len(),
    ensures
        run(after_deletes(local, cloud, w), recycle_steps(rec.take(j))).users.contains_key(
            rec[j].user_id,
        ),
{
    let u = updated(local, cloud);
    lemma_recycled_ids(local, u, u, j);
    lemma_updated_is_common(local, cloud, w, rec[j].user_id);
    lemma_recycle_phase(after_deletes(local, cloud, w), rec.take(j));
    assert(after_deletes(local, cloud, w).users.dom().contains(rec[j].user_id));
}

proof fn lemma_update_applies(
    local: Seq<Entry>,
    cloud: Seq<Entry>,
    rec: Seq<Recycle>,
    w: Option<Timestamp>,
    j: int,
)
    requires
        0 <= j < updated(local, cloud).len(),
    ensures
        after_some_updates(local, cloud, rec, w, j).users.contains_key(
            updated(local, cloud)[j].user.id,
        ),
{
    let u = updated(local, cloud);
    let id = u[j].user.id;
    assert(has_id(u, id));
    lemma_updated_is_common(local, cloud, w, id);
    lemma_recycle_phase(after_deletes(local, cloud, w), rec);
    lemma_update_phase(after_recycles(local, cloud, rec, w), u.take(j));
    assert(after_deletes(local, cloud, w).users.dom().contains(id));
    assert(after_recycles(local, cloud, rec, w).users.dom().contains(id));
}

proof fn lemma_create_applies(
    local: Seq<Entry>,
    cloud: Seq<Entry>,
    rec: Seq<Recycle>,
    w: Option<Timestamp>,
    j: int,
)
    requires
        distinct_ids(cloud),
        0 <= j < created(local, cloud).len(),
    ensures
        !after_some_creates(local, cloud, rec, w, j).users.contains_key(
            created(local, cloud)[j].user.id,
        ),
{
    let c = created(local, cloud);
    let id = c[j].user.id;
    let s2 = after_recycles(local, cloud, rec, w);
    let s3 = run(s2, update_steps(updated(local, cloud)));
    lemma_created_fresh(local, cloud, j);
    lemma_after_deletes(local, cloud, w);
    lemma_recycle_phase(after_deletes(local, cloud, w), rec);
    lemma_update_phase(s2, updated(local, cloud));
    assert(!after_deletes(local, cloud, w).users.contains_key(id));
    assert(!s2.users.dom().contains(id));
    assert(!s3.users.dom().contains(id));
    lemma_create_phase(s3, c.take(j));
    lemma_joined(s3.users, c.take(j), id);
    law_roster_map(c.take(j), id);
}

proof fn lemma_step_of_phases(
    d: Seq<Step>,
    r: Seq<Step>,
    u: Seq<Step>,
    c: Seq<Step>,
    w: Seq<Step>,
    k: int,
)
    requires
        0 <= k < d.len() + r.len() + u.len() + c.len() + w.len(),
    ensures
        (d + r + u + c + w)[k] == if k < d.len() {
            d[k]
        } else if k < d.len() + r.len() {
            r[k - d.len()]
        } else if k < d.len() + r.len() + u.len() {
            u[k - d.len() - r.len()]
        } else if k < d.len() + r.len() + u.len() + c.len() {
            c[k - d.len() - r.len() - u.len()]
        } else {
            w[k - d.len() - r.len() - u.len() - c.len()]
        },
{
}

proof fn lemma_applies_in_delete_phase(
    local: Seq<Entry>,
    cloud: Seq<Entry>,
    w: Option<Timestamp>,
    k: int,
)
    requires
        deleted_ids(local, cloud).no_duplicates(),
        0 <= k < delete_steps(deleted_ids(local, cloud)).len(),
    ensures
        applies(
            run(
                State { users: as_map(local), watermark: w },
                delete_steps(deleted_ids(local, cloud)).take(k),
            ).users,
            delete_steps(deleted_ids(local, cloud))[k],
        ),
{
    let d = delete_steps(deleted_ids(local, cloud));
    assert(d.take(k) =~= Seq::<Step>::empty());
    lemma_delete_applies(local, cloud);
}

proof fn lemma_applies_in_recycle_phase(
    local: Seq<Entry>,
    cloud: Seq<Entry>,
    rec: Seq<Recycle>,
    w: Option<Timestamp>,
    j: int,
)
    requires
        recycles_for(
            rec,
            recycled(local, updated(local, cloud), updated(local, cloud)),
            local,
            cloud,
        ),
        0 <= j < rec.len(),
    ensures
        applies(
            run(
                State { users: as_map(local), watermark: w },
                delete_steps(deleted_ids(local, cloud)) + recycle_steps(rec).take(j),
            ).users,
            recycle_steps(rec)[j],
        ),
{
    let s0 = State { users: as_map(local), watermark: w };
    let d = delete_steps(deleted_ids(local, cloud));
    assert(recycle_steps(rec).take(j) =~= recycle_steps(rec.take(j)));
    lemma_run_append(s0, d, recycle_steps(rec.take(j)));
    lemma_recycle_applies(local, cloud, rec, w, j);
}

proof fn lemma_applies_in_update_phase(
    local: Seq<Entry>,
    cloud: Seq<Entry>,
    rec: Seq<Recycle>,
    w: Option<Timestamp>,
    j: int,
)
    requires
        0 <= j < updated(local, cloud).len(),
    ensures
        applies(
            run(
                State { users: as_map(local), watermark: w },
                delete_steps(deleted_ids(local, cloud)) + recycle_steps(rec) + update_steps(
                    updated(local, cloud),
                ).take(j),
            ).users,
            update_steps(updated(local, cloud))[j],
        ),
{
    let s0 = State { users: as_map(local), watermark: w };
    let d = delete_steps(deleted_ids(local, cloud));
    let r = recycle_steps(rec);
    let u = updated(local, cloud);
    assert(update_steps(u).take(j) =~= update_steps(u.take(j)));
    lemma_run_append(s0, d + r, update_steps(u.take(j)));
    lemma_run_append(s0, d, r);
    lemma_update_applies(local, cloud, rec, w, j);
}

proof fn lemma_applies_in_create_phase(
    local: Seq<Entry>,
    cloud: Seq<Entry>,
    rec: Seq<Recycle>,
    w: Option<Timestamp>,
    j: int,
)
    requires
        distinct_ids(cloud),
        0 <= j < created(local, cloud).len(),
    ensures
        applies(
            run(
                State { users: as_map(local), watermark: w },
                delete_steps(deleted_ids(local, cloud)) + recycle_steps(rec) + update_steps(
                    updated(local, cloud),
                ) + create_steps(created(local, cloud)).take(j),
            ).users,
            create_steps(created(local, cloud))[j],
        ),
{
    let s0 = State { users: as_map(local), watermark: w };
    let d = delete_steps(deleted_ids(local, cloud));
    let r = recycle_steps(rec);
    let u = update_steps(updated(local, cloud));
    let c = created(local, cloud);
    assert(create_steps(c).take(j) =~= create_steps(c.take(j)));
    lemma_run_append(s0, d + r + u, create_steps(c.take(j)));
    lemma_run_append(s0, d + r, u);
    lemma_run_append(s0, d, r);
    lemma_create_applies(local, cloud, rec, w, j);
}

/// Applied to the roster it was computed for, a plan for a cloud roster
/// without repeated ids finds at every step what the step names, provided
/// it deletes no id twice.
pub proof fn law_guard_trips_on_delete_only(
    p: SyncPlan,
    local: Seq<Entry>,
    cloud: Seq<Entry>,
    current: Option<Timestamp>,
    new: Timestamp,
    k: int,
)
    requires
        p.is_for(local, cloud, current, new),
        deleted_ids(local, cloud).no_duplicates(),
        distinct_ids(cloud),
        0 <= k < p.steps().len(),
    ensures
        applies(
            run(State { users: as_map(local), watermark: current }, p.steps().take(k)).users,
            p.steps()[k],
        ),
{
    let d = delete_steps(p.delete_ids@);
    let r = recycle_steps(p.recycle@);
    let u = update_steps(entries(p.update@));
    let c = create_steps(entries(p.create@));
    let w = watermark_steps(p.watermark);
    lemma_prefix_of_phases(d, r, u, c, w, k);
    lemma_step_of_phases(d, r, u, c, w, k);
    if k < d.len() {
        lemma_applies_in_delete_phase(local, cloud, current, k);
    } else if k < d.len() + r.len() {
        assert(p.steps().take(k) =~= d + r.take(k - d.len()));
        lemma_applies_in_recycle_phase(local, cloud, p.recycle@, current, k - d.len());
    } else if k < d.len() + r.len() + u.len() {
        assert(p.steps().take(k) =~= d + r + u.take(k - d.len() - r.len()));
        lemma_applies_in_update_phase(local, cloud, p.recycle@, current, k - d.len() - r.len());
    } else if k < d.len() + r.len() + u.len() + c.len() {
        assert(p.steps().take(k) =~= d + r + u + c.take(k - d.len() - r.len() - u.len()));
        lemma_applies_in_create_phase(
            local,
            cloud,
            p.recycle@,
            current,
            k - d.len() - r.len() - u.len(),
        );
    } else {
        assert(p.watermark is Some);
        assert(p.steps()[k] == w[0]);
    }
}

/// The row guard stays quiet: applied to the roster it was computed for, a
/// plan for a cloud roster without repeated ids finds at every step what the
/// step names, provided no two local users share an id.
pub proof fn law_every_step_applies(
    p: SyncPlan,
    local: Seq<Entry>,
    cloud: Seq<Entry>,
    current: Option<Timestamp>,
    new: Timestamp,
    k: int,
)
    requires
        p.is_for(local, cloud, current, new),
        distinct_ids(local),
        distinct_ids(cloud),
        0 <= k < p.steps().len(),
    ensures
        applies(
            run(State { users: as_map(local), watermark: current }, p.steps().take(k)).users,
            p.steps()[k],
        ),
{
    law_deleted_once(local, cloud);
    law_guard_trips_on_delete_only(p, local, cloud, current, new, k);
}

/// The first step of a plan that deletes anything is the delete step.
pub proof fn lemma_first_step(p: SyncPlan)
    requires
        p.delete_ids@.len() > 0,
    ensures
        p.steps().len() > 0,
        p.steps()[0] == (Step::Delete { ids: p.delete_ids@ }),
{
    let d = delete_steps(p.delete_ids@);
    let r = recycle_steps(p.recycle@);
    let u = update_steps(entries(p.update@));
    let c = create_steps(entries(p.create@));
    let w = watermark_steps(p.watermark);
    lemma_step_of_phases(d, r, u, c, w, 0);
}

} // verus!
