//! One synchronisation with the cloud: what the cloud's reply is worth, the
//! validation of its roster against the hub, and the store once the plan for
//! that roster has been applied.

use crate::diff::{created, deleted_ids, updated};
use crate::domain::{Point, Timestamp};
use crate::guard::{applies, law_guard_trips_on_delete_only, lemma_first_step, trips};
use crate::laws::{law_plan_converges, law_updated};
use crate::plan::{
    create_steps, delete_steps, plan, recycle_steps, run, update_steps, watermark_steps, State,
    Step, SyncPlan,
};
use crate::roster::{
    as_map, distinct_ids, entries, has_distinct_ids, has_known_links, links_known,
    references_known_points, Entry, UserWithPointIds,
};
use crate::store::{apply_all, roster_sound, step_sound, LocalStore};
use crate::unique::lemma_created_in_cloud;
use vstd::prelude::*;

verus! {

/// Why a synchronisation attempt was abandoned.
#[derive(Debug, Clone, Copy, PartialEq, Eq, Structural)]
pub enum SyncError {
    /// The cloud could not be reached.
    TransportError,
    /// The cloud answered outside the 2xx range, or for another hub.
    ProtocolError,
    /// A cloud user is linked to a point that the hub does not have.
    UnknownPointReference,
    /// A cloud user has an empty code or no point at all.
    InvalidCloudUser,
    /// Two cloud users share an id.
    DuplicateCloudUser,
    /// A statement touched another number of rows than planned.
    InconsistentMutation,
}

/// The roster that the cloud holds for one hub.
#[derive(Debug)]
pub struct CloudRoster {
    pub hub_id: i64,
    pub new_watermark: Timestamp,
    pub users: Vec<UserWithPointIds>,
}

/// A cloud user can be stored: it has a code and at least one point.
pub open spec fn usable(e: Entry) -> bool {
    e.user.code.len() > 0 && e.point_ids.len() > 0
}

/// Every entry of `cloud` is usable.
pub open spec fn all_usable(cloud: Seq<Entry>) -> bool {
    forall|i: int| 0 <= i < cloud.len() ==> usable(#[trigger] cloud[i])
}

/// What validation says of a cloud roster.  An unknown point is reported
/// first, then an unusable user, then a repeated id.
pub open spec fn verdict(points: Seq<Point>, cloud: Seq<Entry>) -> Result<(), SyncError> {
    if !references_known_points(points, cloud) {
        Err(SyncError::UnknownPointReference)
    } else if !all_usable(cloud) {
        Err(SyncError::InvalidCloudUser)
    } else if !distinct_ids(cloud) {
        Err(SyncError::DuplicateCloudUser)
    } else {
        Ok(())
    }
}

/// Checks a cloud roster against the points of the hub before anything is
/// changed.
pub fn validate(points: &Vec<Point>, roster: &CloudRoster) -> (r: Result<(), SyncError>)
    ensures
        r == verdict(points@, entries(roster.users@)),
{
    let ghost cloud = entries(roster.users@);
    let mut i: usize = 0;
    while i < roster.users.len()
        invariant
            i <= roster.users.len(),
            cloud == entries(roster.users@),
            forall|k: int| 0 <= k < i ==> links_known(points@, #[trigger] cloud[k]),
        decreases roster.users.len() - i,
    {
        if !has_known_links(points, &roster.users[i]) {
            assert(!links_known(points@, cloud[i as int]));
            return Err(SyncError::UnknownPointReference);
        }
        i += 1;
    }
    let mut i: usize = 0;
    while i < roster.users.len()
        invariant
            i <= roster.users.len(),
            cloud == entries(roster.users@),
            references_known_points(points@, cloud),
            forall|k: int| 0 <= k < i ==> usable(#[trigger] cloud[k]),
        decreases roster.users.len() - i,
    {
        let u = &roster.users[i];
        if u.user.code.as_str().is_empty() || u.point_ids.len() == 0 {
            assert(!usable(cloud[i as int]));
            return Err(SyncError::InvalidCloudUser);
        }
        i += 1;
    }
    if !has_distinct_ids(&roster.users) {
        return Err(SyncError::DuplicateCloudUser);
    }
    Ok(())
}

/// What came back from one call of the cloud.
#[derive(Debug)]
pub enum CloudReply {
    /// The request did not get through, or no answer came in time.
    Unreachable,
    /// The cloud answered with this HTTP status and a body that is no roster.
    Refused { status: u16 },
    /// The cloud answered with this HTTP status and a roster.
    Answered { status: u16, roster: CloudRoster },
}

/// The HTTP status is in the 2xx range.
pub open spec fn success_status(status: u16) -> bool {
    200 <= status < 300
}

/// What holds of a reply that cannot be used, if anything.  A failed call
/// is reported before a status outside the 2xx range, that before a missing
/// roster, and that before a roster for another hub.
pub open spec fn reply_fault(hub_id: i64, reply: CloudReply) -> Option<SyncError> {
    match reply {
        CloudReply::Unreachable => Some(SyncError::TransportError),
        CloudReply::Refused { status } => Some(SyncError::ProtocolError),
        CloudReply::Answered { status, roster } => if !success_status(status) || roster.hub_id
            != hub_id {
            Some(SyncError::ProtocolError)
        } else {
            None
        },
    }
}

/// Takes the roster out of a reply that is fit for use.
pub fn accept_reply(hub_id: i64, reply: CloudReply) -> (r: Result<CloudRoster, SyncError>)
    ensures
        match r {
            Ok(roster) => reply_fault(hub_id, reply) is None && reply == (CloudReply::Answered {
                status: reply->Answered_status,
                roster,
            }),
            Err(e) => reply_fault(hub_id, reply) == Some(e),
        },
{
    match reply {
        CloudReply::Unreachable => Err(SyncError::TransportError),
        CloudReply::Refused { status } => Err(SyncError::ProtocolError),
        CloudReply::Answered { status, roster } => {
            if status < 200 || status >= 300 || roster.hub_id != hub_id {
                Err(SyncError::ProtocolError)
            } else {
                Ok(roster)
            }
        },
    }
}

/// The error with which a synchronisation against `cloud` is abandoned, if
/// it is: a roster for another hub, or one that validation rejects.
pub open spec fn roster_fault(
    hub_id: i64,
    points: Seq<Point>,
    roster_hub_id: i64,
    cloud: Seq<Entry>,
) -> Option<SyncError> {
    if roster_hub_id != hub_id {
        Some(SyncError::ProtocolError)
    } else {
        match verdict(points, cloud) {
            Ok(_) => None,
            Err(e) => Some(e),
        }
    }
}

/// Validates the cloud's roster against the hub and its points and computes
/// the plan that makes the local roster converge to it.  Nothing is changed.
pub fn reconcile(
    hub_id: i64,
    watermark: &Option<Timestamp>,
    points: &Vec<Point>,
    local: &Vec<UserWithPointIds>,
    roster: &CloudRoster,
) -> (r: Result<SyncPlan, SyncError>)
    ensures
        match r {
            Ok(p) => roster_fault(hub_id, points@, roster.hub_id, entries(roster.users@)) is None
                && p.is_for(
                entries(local@),
                entries(roster.users@),
                *watermark,
                roster.new_watermark,
            ),
            Err(e) => roster_fault(hub_id, points@, roster.hub_id, entries(roster.users@))
                == Some(e),
        },
{
    if roster.hub_id != hub_id {
        return Err(SyncError::ProtocolError);
    }
    match validate(points, roster) {
        Ok(_) => {},
        Err(e) => {
            return Err(e);
        },
    }
    Ok(plan(watermark, local, &roster.users, roster.new_watermark))
}

/// Every step of the plan for a roster whose links lead to known points
/// brings only links that lead to known points.
pub(crate) proof fn lemma_plan_steps_sound(
    p: SyncPlan,
    local: Seq<Entry>,
    cloud: Seq<Entry>,
    current: Option<Timestamp>,
    new: Timestamp,
    points: Seq<Point>,
    k: int,
)
    requires
        p.is_for(local, cloud, current, new),
        references_known_points(points, cloud),
        0 <= k < p.steps().len(),
    ensures
        step_sound(points, p.steps()[k]),
{
    let d = delete_steps(p.delete_ids@);
    let r = recycle_steps(p.recycle@);
    let u = update_steps(entries(p.update@));
    let c = create_steps(entries(p.create@));
    let w = watermark_steps(p.watermark);
    let step = p.steps()[k];
    if d.len() + r.len() <= k < d.len() + r.len() + u.len() {
        let e = updated(local, cloud)[k - d.len() - r.len()];
        assert(step == Step::Update { entry: e });
        assert(updated(local, cloud).contains(e));
        law_updated(local, cloud, e);
        let i = choose|i: int| 0 <= i < cloud.len() && cloud[i] == e;
        assert(links_known(points, cloud[i]));
    } else if d.len() + r.len() + u.len() <= k < d.len() + r.len() + u.len() + c.len() {
        let e = created(local, cloud)[k - d.len() - r.len() - u.len()];
        assert(step == Step::Create { entry: e });
        assert(created(local, cloud).contains(e));
        lemma_created_in_cloud(local, cloud, e);
        let i = choose|i: int| 0 <= i < cloud.len() && cloud[i] == e;
        assert(links_known(points, cloud[i]));
    } else if k < d.len() {
        assert(step == d[k]);
    } else if k < d.len() + r.len() {
        assert(step == r[k - d.len()]);
    } else {
        assert(step == w[k - d.len() - r.len() - u.len() - c.len()]);
    }
}

/// The error with which `heartbeat` answers `reply`, if it does: a reply
/// that cannot be used, a roster that cannot be used, or a local roster in
/// which a user to delete stands twice, so that the delete step would not
/// touch the rows it expects.
pub open spec fn heartbeat_fault(store: LocalStore, reply: CloudReply) -> Option<SyncError> {
    match reply_fault(store.hub.id, reply) {
        Some(e) => Some(e),
        None => match roster_fault(
            store.hub.id,
            store.points@,
            reply->Answered_roster.hub_id,
            entries(reply->Answered_roster.users@),
        ) {
            Some(e) => Some(e),
            None => if deleted_ids(
                entries(store.users@),
                entries(reply->Answered_roster.users@),
            ).no_duplicates() {
                None
            } else {
                Some(SyncError::InconsistentMutation)
            },
        },
    }
}

proof fn lemma_guard(
    p: SyncPlan,
    local: Seq<Entry>,
    cloud: Seq<Entry>,
    current: Option<Timestamp>,
    new: Timestamp,
)
    requires
        p.is_for(local, cloud, current, new),
        distinct_ids(cloud),
    ensures
        trips(State { users: as_map(local), watermark: current }, p.steps()) == !deleted_ids(
            local,
            cloud,
        ).no_duplicates(),
{
    let start = State { users: as_map(local), watermark: current };
    let steps = p.steps();
    if deleted_ids(local, cloud).no_duplicates() {
        assert forall|k: int| 0 <= k < steps.len() implies applies(
            run(start, steps.take(k)).users,
            #[trigger] steps[k],
        ) by {
            law_guard_trips_on_delete_only(p, local, cloud, current, new, k);
        }
    } else {
        lemma_first_step(p);
        assert(steps.take(0) =~= Seq::<Step>::empty());
        assert(!applies(run(start, steps.take(0)).users, steps[0]));
    }
}

/// One synchronisation of the store with what the cloud answered.  Either
/// the attempt is given up and the store stays as it was, or the users of
/// the store become those of the cloud's roster and the watermark becomes
/// the cloud's.
pub fn heartbeat(store: &mut LocalStore, reply: CloudReply) -> (r: Result<(), SyncError>)
    ensures
        match r {
            Ok(_) => {
                &&& heartbeat_fault(*old(store), reply) is None
                &&& final(store).state().users == as_map(entries(reply->Answered_roster.users@))
                &&& final(store).state().watermark == Some(reply->Answered_roster.new_watermark)
                &&& final(store).same_surroundings(old(store))
                &&& old(store).well_formed() ==> final(store).well_formed()
            },
            Err(e) => heartbeat_fault(*old(store), reply) == Some(e) && *final(store) == *old(
                store,
            ),
        },
{
    let roster = match accept_reply(store.hub.id, reply) {
        Ok(roster) => roster,
        Err(e) => {
            return Err(e);
        },
    };
    let p = match reconcile(
        store.hub.id,
        &store.hub.cloud_last_access_event_at,
        &store.points,
        &store.users,
        &roster,
    ) {
        Ok(p) => p,
        Err(e) => {
            return Err(e);
        },
    };
    let ms = p.mutations();
    let ghost local = entries(store.users@);
    let ghost cloud = entries(roster.users@);
    let ghost points = store.points@;
    proof {
        lemma_guard(p, local, cloud, store.hub.cloud_last_access_event_at, roster.new_watermark);
        assert forall|k: int| 0 <= k < p.steps().len() implies step_sound(
            points,
            #[trigger] p.steps()[k],
        ) by {
            lemma_plan_steps_sound(
                p,
                local,
                cloud,
                store.hub.cloud_last_access_event_at,
                roster.new_watermark,
                points,
                k,
            );
        }
        law_plan_converges(
            p,
            local,
            cloud,
            store.hub.cloud_last_access_event_at,
            roster.new_watermark,
        );
    }
    match apply_all(&store.users, store.hub.cloud_last_access_event_at, &ms) {
        Ok((users, watermark)) => {
            assert(roster_sound(points, local) ==> roster_sound(points, entries(users@)));
            store.users = users;
            store.hub.cloud_last_access_event_at = watermark;
            Ok(())
        },
        Err(e) => Err(e),
    }
}

} // verus!
