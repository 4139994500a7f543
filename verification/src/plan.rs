//! The plan of one synchronisation: the four sets of the difference, the
//! ordered mutations they give rise to, and what each mutation does to the
//! state of the store.

use crate::diff::{created, deleted_ids, updated, users_to_create, users_to_delete, users_to_update};
use crate::domain::{Timestamp, UserView};
use crate::recycle::{codes_to_recycle, recycled, recycles_for, Recycle};
use crate::roster::{entries, Entry, Record, UserWithPointIds};
use vstd::prelude::*;

verus! {

/// One step of the apply phase.
#[derive(Debug)]
pub enum Mutation {
    /// Remove the users with these ids, and their links with them.
    Delete { ids: Vec<i64> },
    /// Replace the code of one user by a placeholder.
    Recycle { user_id: i64, code: String },
    /// Overwrite one user's record and replace the set of its links.
    Update { entry: UserWithPointIds },
    /// Insert a new user with its links.
    Create { entry: UserWithPointIds },
    /// Move the hub's watermark.
    SetWatermark { at: Timestamp },
}

/// What a `Mutation` is, as plain values.
pub enum Step {
    Delete { ids: Seq<i64> },
    Recycle { user_id: i64, code: Seq<char> },
    Update { entry: Entry },
    Create { entry: Entry },
    SetWatermark { at: Timestamp },
}

impl View for Mutation {
    type V = Step;

    open spec fn view(&self) -> Step {
        match self {
            Mutation::Delete { ids } => Step::Delete { ids: ids@ },
            Mutation::Recycle { user_id, code } => Step::Recycle { user_id: *user_id, code: code@ },
            Mutation::Update { entry } => Step::Update { entry: entry@ },
            Mutation::Create { entry } => Step::Create { entry: entry@ },
            Mutation::SetWatermark { at } => Step::SetWatermark { at: *at },
        }
    }
}

/// The views of a sequence of mutations, element by element.
pub open spec fn steps_of(v: Seq<Mutation>) -> Seq<Step> {
    Seq::new(v.len(), |i: int| v[i]@)
}

/// What reconciliation reads and changes of the store: the users by id, each
/// with the set of its points, and the hub's watermark.
pub struct State {
    pub users: Map<i64, Record>,
    pub watermark: Option<Timestamp>,
}

/// `r` with the code replaced.
pub open spec fn with_code(r: Record, code: Seq<char>) -> Record {
    Record {
        user: UserView {
            id: r.user.id,
            name: r.user.name,
            code,
            activate_code_at: r.user.activate_code_at,
            expire_code_at: r.user.expire_code_at,
        },
        points: r.points,
    }
}

/// The state after one step.  A step that names a user the store does not
/// have, or creates one it already has, changes nothing.
pub open spec fn effect(s: State, m: Step) -> State {
    match m {
        Step::Delete { ids } => State {
            users: s.users.remove_keys(ids.to_set()),
            watermark: s.watermark,
        },
        Step::Recycle { user_id, code } => if s.users.contains_key(user_id) {
            State {
                users: s.users.insert(user_id, with_code(s.users[user_id], code)),
                watermark: s.watermark,
            }
        } else {
            s
        },
        Step::Update { entry } => if s.users.contains_key(entry.user.id) {
            State { users: s.users.insert(entry.user.id, entry.record()), watermark: s.watermark }
        } else {
            s
        },
        Step::Create { entry } => if s.users.contains_key(entry.user.id) {
            s
        } else {
            State { users: s.users.insert(entry.user.id, entry.record()), watermark: s.watermark }
        },
        Step::SetWatermark { at } => State { users: s.users, watermark: Some(at) },
    }
}

/// The state after the steps of `ms`, taken in order.
pub open spec fn run(s: State, ms: Seq<Step>) -> State
    decreases ms.len(),
{
    if ms.len() == 0 {
        s
    } else {
        effect(run(s, ms.drop_last()), ms.last())
    }
}

/// The difference between the local and the cloud roster, with the
/// placeholders for the codes that change hands.
#[derive(Debug)]
pub struct SyncPlan {
    pub delete_ids: Vec<i64>,
    pub recycle: Vec<Recycle>,
    pub update: Vec<UserWithPointIds>,
    pub create: Vec<UserWithPointIds>,
    pub watermark: Option<Timestamp>,
}

/// The one delete step, if there is anything to delete.
pub open spec fn delete_steps(ids: Seq<i64>) -> Seq<Step> {
    if ids.len() == 0 {
        Seq::empty()
    } else {
        seq![Step::Delete { ids }]
    }
}

/// One recycle step for each placeholder.
pub open spec fn recycle_steps(r: Seq<Recycle>) -> Seq<Step> {
    Seq::new(r.len(), |i: int| Step::Recycle { user_id: r[i].user_id, code: r[i].code@ })
}

/// One update step for each entry.
pub open spec fn update_steps(u: Seq<Entry>) -> Seq<Step> {
    Seq::new(u.len(), |i: int| Step::Update { entry: u[i] })
}

/// One create step for each entry.
pub open spec fn create_steps(c: Seq<Entry>) -> Seq<Step> {
    Seq::new(c.len(), |i: int| Step::Create { entry: c[i] })
}

/// The watermark step, if the watermark moves.
pub open spec fn watermark_steps(w: Option<Timestamp>) -> Seq<Step> {
    match w {
        Some(at) => seq![Step::SetWatermark { at }],
        None => Seq::empty(),
    }
}

/// The new watermark where it differs from the current one.
pub open spec fn watermark_change(current: Option<Timestamp>, new: Timestamp) -> Option<Timestamp> {
    if current == Some(new) {
        None
    } else {
        Some(new)
    }
}

impl SyncPlan {
    /// The steps of the plan in the order in which they are applied:
    /// deletes, recycled codes, updates, creates, and the watermark last.
    pub open spec fn steps(&self) -> Seq<Step> {
        delete_steps(self.delete_ids@) + recycle_steps(self.recycle@) + update_steps(
            entries(self.update@),
        ) + create_steps(entries(self.create@)) + watermark_steps(self.watermark)
    }

    /// The plan is the difference between `local` and `cloud`, and moves the
    /// watermark from `current` to `new` where the two differ.
    pub open spec fn is_for(
        &self,
        local: Seq<Entry>,
        cloud: Seq<Entry>,
        current: Option<Timestamp>,
        new: Timestamp,
    ) -> bool {
        &&& self.delete_ids@ == deleted_ids(local, cloud)
        &&& entries(self.update@) == updated(local, cloud)
        &&& entries(self.create@) == created(local, cloud)
        &&& recycles_for(
            self.recycle@,
            recycled(local, updated(local, cloud), updated(local, cloud)),
            local,
            cloud,
        )
        &&& self.watermark == watermark_change(current, new)
    }

    /// Nothing is deleted, recycled, updated or created.
    pub open spec fn leaves_users(&self) -> bool {
        self.delete_ids@.len() == 0 && self.recycle@.len() == 0 && self.update@.len() == 0
            && self.create@.len() == 0
    }
}

impl SyncPlan {
    /// The mutations of the plan in the order in which they are applied.
    pub fn mutations(&self) -> (out: Vec<Mutation>)
        ensures
            steps_of(out@) == self.steps(),
    {
        let mut out: Vec<Mutation> = Vec::new();
        if self.delete_ids.len() > 0 {
            out.push(Mutation::Delete { ids: self.delete_ids.clone() });
        }
        assert(steps_of(out@) =~= delete_steps(self.delete_ids@));
        let ghost d = delete_steps(self.delete_ids@);
        let mut i: usize = 0;
        while i < self.recycle.len()
            invariant
                i <= self.recycle.len(),
                d == delete_steps(self.delete_ids@),
                steps_of(out@) =~= d + recycle_steps(self.recycle@.take(i as int)),
            decreases self.recycle.len() - i,
        {
            let r = &self.recycle[i];
            let ghost before = steps_of(out@);
            let ghost step = Step::Recycle { user_id: r.user_id, code: r.code@ };
            out.push(Mutation::Recycle { user_id: r.user_id, code: r.code.clone() });
            proof {
                assert(steps_of(out@) =~= before.push(step));
                assert(recycle_steps(self.recycle@.take(i + 1)) =~= recycle_steps(
                    self.recycle@.take(i as int),
                ).push(step));
            }
            i += 1;
        }
        assert(self.recycle@.take(self.recycle.len() as int) =~= self.recycle@);
        let ghost r = d + recycle_steps(self.recycle@);
        let mut i: usize = 0;
        while i < self.update.len()
            invariant
                i <= self.update.len(),
                steps_of(out@) =~= r + update_steps(entries(self.update@).take(i as int)),
            decreases self.update.len() - i,
        {
            let ghost before = steps_of(out@);
            let ghost step = Step::Update { entry: self.update@[i as int]@ };
            out.push(Mutation::Update { entry: self.update[i].duplicate() });
            proof {
                assert(steps_of(out@) =~= before.push(step));
                assert(update_steps(entries(self.update@).take(i + 1)) =~= update_steps(
                    entries(self.update@).take(i as int),
                ).push(step));
            }
            i += 1;
        }
        assert(entries(self.update@).take(self.update.len() as int) =~= entries(self.update@));
        let ghost u = r + update_steps(entries(self.update@));
        let mut i: usize = 0;
        while i < self.create.len()
            invariant
                i <= self.create.len(),
                steps_of(out@) =~= u + create_steps(entries(self.create@).take(i as int)),
            decreases self.create.len() - i,
        {
            let ghost before = steps_of(out@);
            let ghost step = Step::Create { entry: self.create@[i as int]@ };
            out.push(Mutation::Create { entry: self.create[i].duplicate() });
            proof {
                assert(steps_of(out@) =~= before.push(step));
                assert(create_steps(entries(self.create@).take(i + 1)) =~= create_steps(
                    entries(self.create@).take(i as int),
                ).push(step));
            }
            i += 1;
        }
        assert(entries(self.create@).take(self.create.len() as int) =~= entries(self.create@));
        match self.watermark {
            Some(at) => {
                out.push(Mutation::SetWatermark { at });
            },
            None => {},
        }
        assert(steps_of(out@) =~= self.steps());
        out
    }
}

/// Computes the difference between the local roster and the cloud roster.
pub fn plan(
    current: &Option<Timestamp>,
    local: &Vec<UserWithPointIds>,
    cloud: &Vec<UserWithPointIds>,
    new_watermark: Timestamp,
) -> (p: SyncPlan)
    ensures
        p.is_for(entries(local@), entries(cloud@), *current, new_watermark),
{
    let delete_ids = users_to_delete(local, cloud);
    let update = users_to_update(local, cloud);
    let create = users_to_create(local, cloud);
    let recycle = codes_to_recycle(local, cloud, &update);
    let watermark = match current {
        Some(at) => if at.secs == new_watermark.secs && at.nanos == new_watermark.nanos {
            None
        } else {
            Some(new_watermark)
        },
        None => Some(new_watermark),
    };
    SyncPlan { delete_ids, recycle, update, create, watermark }
}

} // verus!
