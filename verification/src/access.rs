//! The decision at a point: whether a presented code is granted or denied,
//! and the event that records the decision.

use crate::domain::{
    active_at, is_active_at, Access, ActiveCode, ActiveCodeView, EventView, Point, Timestamp,
};
use crate::roster::{contains_point, entries, known_point, Entry, UserWithPointIds};
use crate::store::LocalStore;
use vstd::prelude::*;
use vstd::string::StringExecFns;

verus! {

/// The outcome of an access attempt at a known point.
#[derive(Debug, Clone, Copy, PartialEq, Eq, Structural)]
pub enum Decision {
    Grant,
    Deny,
}

/// Why an access attempt could not be decided.
#[derive(Debug, Clone, Copy, PartialEq, Eq, Structural)]
pub enum AccessError {
    /// The position is below 1.
    InvalidPosition,
    /// No point has the position.
    UnknownPosition,
}

/// `i` is the first index of a point at `position`.
pub open spec fn first_point_at(points: Seq<Point>, position: i64, i: int) -> bool {
    &&& 0 <= i < points.len()
    &&& points[i].position == position
    &&& forall|j: int| 0 <= j < i ==> (#[trigger] points[j]).position != position
}

/// Some point is at `position`.
pub open spec fn has_point_at(points: Seq<Point>, position: i64) -> bool {
    exists|i: int| 0 <= i < points.len() && (#[trigger] points[i]).position == position
}

/// The first point at `position`.
pub open spec fn point_at(points: Seq<Point>, position: i64) -> Point {
    points[choose|i: int| first_point_at(points, position, i)]
}

/// The user `e` holds `code`, the code is active at `now`, and the user is
/// linked to the point `point_id`.
pub open spec fn bound(e: Entry, code: Seq<char>, point_id: i64, now: Timestamp) -> bool {
    &&& e.user.code == code
    &&& active_at(e.user.activate_code_at, e.user.expire_code_at, now)
    &&& e.point_ids.contains(point_id)
}

/// `i` is the first index of a user bound to `code` at the point.
pub open spec fn first_holder(
    users: Seq<Entry>,
    code: Seq<char>,
    point_id: i64,
    now: Timestamp,
    i: int,
) -> bool {
    &&& 0 <= i < users.len()
    &&& bound(users[i], code, point_id, now)
    &&& forall|j: int| 0 <= j < i ==> !bound(#[trigger] users[j], code, point_id, now)
}

/// Some user is bound to `code` at the point.
pub open spec fn has_holder(
    users: Seq<Entry>,
    code: Seq<char>,
    point_id: i64,
    now: Timestamp,
) -> bool {
    exists|i: int| 0 <= i < users.len() && bound(#[trigger] users[i], code, point_id, now)
}

/// The first user bound to `code` at the point.
pub open spec fn holder(
    users: Seq<Entry>,
    code: Seq<char>,
    point_id: i64,
    now: Timestamp,
) -> Entry {
    users[choose|i: int| first_holder(users, code, point_id, now, i)]
}

/// The index of the first point at `position`, if there is one.
pub fn find_point_at(points: &Vec<Point>, position: i64) -> (r: Option<usize>)
    ensures
        r is Some <==> has_point_at(points@, position),
        r matches Some(i) ==> first_point_at(points@, position, i as int) && points@[i as int]
            == point_at(points@, position),
{
    let mut i: usize = 0;
    while i < points.len()
        invariant
            i <= points.len(),
            forall|j: int| 0 <= j < i ==> (#[trigger] points@[j]).position != position,
        decreases points.len() - i,
    {
        if points[i].position == position {
            proof {
                assert(first_point_at(points@, position, i as int));
                let k = choose|k: int| first_point_at(points@, position, k);
                assert(k == i) by {
                    if k < i {
                        assert(points@[k].position != position);
                    } else if i < k {
                        assert(points@[i as int].position == position);
                    }
                }
            }
            return Some(i);
        }
        i += 1;
    }
    None
}

/// Decides `bound`.
pub fn is_bound(user: &UserWithPointIds, code: &String, point_id: i64, now: &Timestamp) -> (r: bool)
    ensures
        r == bound(user@, code@, point_id, *now),
{
    user.user.code == *code && is_active_at(
        &user.user.activate_code_at,
        &user.user.expire_code_at,
        now,
    ) && contains_point(&user.point_ids, point_id)
}

/// The index of the first user bound to `code` at the point, if there is one.
pub fn find_holder(
    users: &Vec<UserWithPointIds>,
    code: &String,
    point_id: i64,
    now: &Timestamp,
) -> (r: Option<usize>)
    ensures
        r is Some <==> has_holder(entries(users@), code@, point_id, *now),
        r matches Some(i) ==> i < users.len() && first_holder(
            entries(users@),
            code@,
            point_id,
            *now,
            i as int,
        ) && users@[i as int]@ == holder(entries(users@), code@, point_id, *now),
{
    let ghost s = entries(users@);
    let mut i: usize = 0;
    while i < users.len()
        invariant
            i <= users.len(),
            s == entries(users@),
            forall|j: int| 0 <= j < i ==> !bound(#[trigger] s[j], code@, point_id, *now),
        decreases users.len() - i,
    {
        assert(s[i as int] == users@[i as int]@);
        if is_bound(&users[i], code, point_id, now) {
            proof {
                assert(first_holder(s, code@, point_id, *now, i as int));
                let k = choose|k: int| first_holder(s, code@, point_id, *now, k);
                assert(k == i) by {
                    if k < i {
                        assert(!bound(s[k], code@, point_id, *now));
                    } else if i < k {
                        assert(bound(s[i as int], code@, point_id, *now));
                    }
                }
            }
            return Some(i);
        }
        i += 1;
    }
    None
}

/// What `active_code` finds: the first user bound to `code` at the first
/// point at `position`, where there is such a point and such a user.
pub open spec fn active_code_at(
    points: Seq<Point>,
    users: Seq<Entry>,
    code: Seq<char>,
    position: i64,
    now: Timestamp,
) -> Option<ActiveCodeView> {
    if has_point_at(points, position) && has_holder(
        users,
        code,
        point_at(points, position).id,
        now,
    ) {
        let user = holder(users, code, point_at(points, position).id, now).user;
        Some(
            ActiveCodeView {
                access_point_id: point_at(points, position).id,
                position,
                code,
                access_user_id: user.id,
                activate_code_at: user.activate_code_at,
                expire_code_at: user.expire_code_at,
            },
        )
    } else {
        None
    }
}

/// The view of what `active_code` returns.
pub open spec fn active_code_view(r: Option<ActiveCode>) -> Option<ActiveCodeView> {
    match r {
        Some(a) => Some(a@),
        None => None,
    }
}

/// Looks up the code as it stands at the position: who holds it there while
/// it is active.
pub fn active_code(
    points: &Vec<Point>,
    users: &Vec<UserWithPointIds>,
    code: &String,
    position: i64,
    now: &Timestamp,
) -> (r: Option<ActiveCode>)
    ensures
        active_code_view(r) == active_code_at(points@, entries(users@), code@, position, *now),
{
    let point = match find_point_at(points, position) {
        Some(i) => points[i],
        None => {
            return None;
        },
    };
    match find_holder(users, code, point.id, now) {
        Some(k) => Some(
            ActiveCode {
                access_point_id: point.id,
                position,
                code: code.clone(),
                access_user_id: users[k].user.id,
                activate_code_at: users[k].user.activate_code_at,
                expire_code_at: users[k].user.expire_code_at,
            },
        ),
        None => None,
    }
}

/// A decision with what the event that records it must name: the point, and
/// on a grant the user.
#[derive(Debug, Clone, Copy, PartialEq, Eq)]
pub struct Verdict {
    pub decision: Decision,
    pub access_point_id: i64,
    pub access_user_id: Option<i64>,
}

/// What is decided when `code` is presented at `position` at the instant
/// `now`.
pub open spec fn judged(
    points: Seq<Point>,
    users: Seq<Entry>,
    code: Seq<char>,
    position: i64,
    now: Timestamp,
) -> Result<Verdict, AccessError> {
    if position < 1 {
        Err(AccessError::InvalidPosition)
    } else if !has_point_at(points, position) {
        Err(AccessError::UnknownPosition)
    } else {
        let point = point_at(points, position);
        if has_holder(users, code, point.id, now) {
            Ok(
                Verdict {
                    decision: Decision::Grant,
                    access_point_id: point.id,
                    access_user_id: Some(holder(users, code, point.id, now).user.id),
                },
            )
        } else {
            Ok(
                Verdict {
                    decision: Decision::Deny,
                    access_point_id: point.id,
                    access_user_id: None,
                },
            )
        }
    }
}

/// Decides an access attempt without recording it.
pub fn evaluate(
    points: &Vec<Point>,
    users: &Vec<UserWithPointIds>,
    code: &String,
    position: i64,
    now: &Timestamp,
) -> (r: Result<Verdict, AccessError>)
    ensures
        r == judged(points@, entries(users@), code@, position, *now),
        r matches Ok(verdict) ==> known_point(points@, verdict.access_point_id) && ((
        verdict.decision == Decision::Grant) <==> verdict.access_user_id is Some),
{
    if position < 1 {
        return Err(AccessError::InvalidPosition);
    }
    let point = match find_point_at(points, position) {
        Some(i) => points[i],
        None => {
            return Err(AccessError::UnknownPosition);
        },
    };
    match find_holder(users, code, point.id, now) {
        Some(k) => Ok(
            Verdict {
                decision: Decision::Grant,
                access_point_id: point.id,
                access_user_id: Some(users[k].user.id),
            },
        ),
        None => Ok(
            Verdict { decision: Decision::Deny, access_point_id: point.id, access_user_id: None },
        ),
    }
}

/// The event that records `verdict` for `code` at `now` under the id `id`.
pub open spec fn recorded(verdict: Verdict, code: Seq<char>, now: Timestamp, id: i64) -> EventView {
    EventView {
        id,
        at: now,
        access: match verdict.decision {
            Decision::Grant => Access::Grant,
            Decision::Deny => Access::Deny,
        },
        code,
        access_user_id: verdict.access_user_id,
        access_point_id: verdict.access_point_id,
    }
}

/// Decides an access attempt at `position` and appends the one event that
/// records the decision.  An attempt that cannot be decided leaves the store
/// as it was.
pub fn access(code: &str, position: i64, store: &mut LocalStore, now: Timestamp) -> (r: Result<
    Decision,
    AccessError,
>)
    requires
        old(store).next_event_id() <= i64::MAX,
    ensures
        match judged(old(store).points@, entries(old(store).users@), code@, position, now) {
            Ok(verdict) => {
                &&& r == Ok::<Decision, AccessError>(verdict.decision)
                &&& final(store).events@.len() == old(store).events@.len() + 1
                &&& final(store).events@.drop_last() == old(store).events@
                &&& final(store).events@.last()@ == recorded(
                    verdict,
                    code@,
                    now,
                    old(store).next_event_id() as i64,
                )
                &&& final(store).hub == old(store).hub
                &&& final(store).points == old(store).points
                &&& final(store).users == old(store).users
                &&& old(store).well_formed() ==> final(store).well_formed()
            },
            Err(e) => r == Err::<Decision, AccessError>(e) && *final(store) == *old(store),
        },
{
    let presented = code.to_owned();
    let verdict = match evaluate(&store.points, &store.users, &presented, position, &now) {
        Ok(verdict) => verdict,
        Err(e) => {
            return Err(e);
        },
    };
    let access = match verdict.decision {
        Decision::Grant => Access::Grant,
        Decision::Deny => Access::Deny,
    };
    store.record(now, access, presented, verdict.access_user_id, verdict.access_point_id);
    Ok(verdict.decision)
}

impl Decision {
    /// The word under which the decision is reported.
    pub open spec fn word(self) -> Seq<char> {
        match self {
            Decision::Grant => "GRANT"@,
            Decision::Deny => "DENY"@,
        }
    }

    /// The decision as `GRANT` or `DENY`.
    pub fn label(&self) -> (r: String)
        ensures
            r@ == self.word(),
    {
        match self {
            Decision::Grant => String::from_str("GRANT"),
            Decision::Deny => String::from_str("DENY"),
        }
    }
}

/// A position below 1 is invalid, whatever the store holds.
pub proof fn law_position_below_one(
    points: Seq<Point>,
    users: Seq<Entry>,
    code: Seq<char>,
    position: i64,
    now: Timestamp,
)
    requires
        position < 1,
    ensures
        judged(points, users, code, position, now) == Err::<Verdict, AccessError>(
            AccessError::InvalidPosition,
        ),
{
}

/// A valid position at which no point stands is unknown.
pub proof fn law_position_without_point(
    points: Seq<Point>,
    users: Seq<Entry>,
    code: Seq<char>,
    position: i64,
    now: Timestamp,
)
    requires
        position >= 1,
        forall|i: int| 0 <= i < points.len() ==> (#[trigger] points[i]).position != position,
    ensures
        judged(points, users, code, position, now) == Err::<Verdict, AccessError>(
            AccessError::UnknownPosition,
        ),
{
}

/// A code that a user holds, that is active and that is bound to the point
/// at the position is granted, and the verdict names a user so bound.
pub proof fn law_active_code_granted(
    points: Seq<Point>,
    users: Seq<Entry>,
    code: Seq<char>,
    position: i64,
    now: Timestamp,
    i: int,
)
    requires
        position >= 1,
        has_point_at(points, position),
        0 <= i < users.len(),
        bound(users[i], code, point_at(points, position).id, now),
    ensures
        ({
            &&& judged(points, users, code, position, now) matches Ok(verdict)
            &&& verdict.decision == Decision::Grant
            &&& verdict.access_point_id == point_at(points, position).id
            &&& verdict.access_user_id matches Some(id)
            &&& exists|k: int|
                0 <= k < users.len() && (#[trigger] users[k]).user.id == id && bound(
                    users[k],
                    code,
                    point_at(points, position).id,
                    now,
                )
        }),
{
    let point_id = point_at(points, position).id;
    lemma_first_holder(users, code, point_id, now, i);
    let k = choose|k: int| first_holder(users, code, point_id, now, k);
    assert(users[k].user.id == holder(users, code, point_id, now).user.id);
}

proof fn lemma_first_holder(
    users: Seq<Entry>,
    code: Seq<char>,
    point_id: i64,
    now: Timestamp,
    i: int,
)
    requires
        0 <= i < users.len(),
        bound(users[i], code, point_id, now),
    ensures
        exists|k: int| first_holder(users, code, point_id, now, k),
    decreases i,
{
    if exists|j: int| 0 <= j < i && bound(#[trigger] users[j], code, point_id, now) {
        let j = choose|j: int| 0 <= j < i && bound(#[trigger] users[j], code, point_id, now);
        lemma_first_holder(users, code, point_id, now, j);
    } else {
        assert(first_holder(users, code, point_id, now, i));
    }
}

/// Where every user who holds the code is expired or not yet active, the
/// code is denied although it matches, and the verdict names no user.
pub proof fn law_inactive_code_denied(
    points: Seq<Point>,
    users: Seq<Entry>,
    code: Seq<char>,
    position: i64,
    now: Timestamp,
)
    requires
        position >= 1,
        has_point_at(points, position),
        forall|i: int|
            0 <= i < users.len() && (#[trigger] users[i]).user.code == code ==> !active_at(
                users[i].user.activate_code_at,
                users[i].user.expire_code_at,
                now,
            ),
    ensures
        judged(points, users, code, position, now) == Ok::<Verdict, AccessError>(
            Verdict {
                decision: Decision::Deny,
                access_point_id: point_at(points, position).id,
                access_user_id: None,
            },
        ),
{
}

} // verus!
