//! Events and code swaps made by hand, to exercise a hub without hardware.

use crate::domain::{Access, Event, EventView, Timestamp, User};
use crate::roster::{entries, entry_of, find_user, has_id, known_point};
use crate::statements::{statement_views, Statement, StatementView};
use crate::store::LocalStore;
use vstd::prelude::*;
use vstd::string::StringExecFns;

verus! {

/// Why a hand-made change was not made.
#[derive(Debug, Clone, Copy, PartialEq, Eq, Structural)]
pub enum MockError {
    /// No user has the id.
    UserNotFound,
    /// No event has the id.
    EventNotFound,
    /// There are not two users whose codes could be swapped.
    NoUsersToSwap,
}

/// Records a grant for the user `user_id` at the point `point_id`, under the
/// code that the user holds, and returns the id of the event.  Without such
/// a user nothing is recorded.
pub fn grant(user_id: i64, point_id: i64, store: &mut LocalStore, now: Timestamp) -> (r: Result<
    i64,
    MockError,
>)
    requires
        old(store).next_event_id() <= i64::MAX,
    ensures
        if has_id(entries(old(store).users@), user_id) {
            &&& r == Ok::<i64, MockError>(old(store).next_event_id() as i64)
            &&& final(store).events@.len() == old(store).events@.len() + 1
            &&& final(store).events@.drop_last() == old(store).events@
            &&& final(store).events@.last()@ == (EventView {
                id: old(store).next_event_id() as i64,
                at: now,
                access: Access::Grant,
                code: entry_of(entries(old(store).users@), user_id).user.code,
                access_user_id: Some(user_id),
                access_point_id: point_id,
            })
            &&& final(store).hub == old(store).hub
            &&& final(store).points == old(store).points
            &&& final(store).users == old(store).users
            &&& old(store).well_formed() && known_point(old(store).points@, point_id)
                ==> final(store).well_formed()
        } else {
            r == Err::<i64, MockError>(MockError::UserNotFound) && *final(store) == *old(store)
        },
{
    match find_user(&store.users, user_id) {
        Some(k) => {
            assert(entries(store.users@)[k as int] == store.users@[k as int]@);
            let code = store.users[k].user.code.clone();
            Ok(store.record(now, Access::Grant, code, Some(user_id), point_id))
        },
        None => Err(MockError::UserNotFound),
    }
}

/// Records a denial of `code` at the point `point_id` and returns the id of
/// the event.
pub fn deny(point_id: i64, code: String, store: &mut LocalStore, now: Timestamp) -> (id: i64)
    requires
        old(store).next_event_id() <= i64::MAX,
    ensures
        id == old(store).next_event_id(),
        final(store).events@.len() == old(store).events@.len() + 1,
        final(store).events@.drop_last() == old(store).events@,
        final(store).events@.last()@ == (EventView {
            id,
            at: now,
            access: Access::Deny,
            code: code@,
            access_user_id: None,
            access_point_id: point_id,
        }),
        final(store).hub == old(store).hub,
        final(store).points == old(store).points,
        final(store).users == old(store).users,
        old(store).well_formed() && known_point(old(store).points@, point_id)
            ==> final(store).well_formed(),
{
    store.record(now, Access::Deny, code, None, point_id)
}

/// The index of the first event with the id `id`.
pub fn find_event(events: &Vec<Event>, id: i64) -> (r: Result<usize, MockError>)
    ensures
        match r {
            Ok(i) => i < events@.len() && events@[i as int].id == id && forall|j: int|
                0 <= j < i ==> (#[trigger] events@[j]).id != id,
            Err(e) => e == MockError::EventNotFound && forall|j: int|
                0 <= j < events@.len() ==> (#[trigger] events@[j]).id != id,
        },
{
    let mut i: usize = 0;
    while i < events.len()
        invariant
            i <= events.len(),
            forall|j: int| 0 <= j < i ==> (#[trigger] events@[j]).id != id,
        decreases events.len() - i,
    {
        if events[i].id == id {
            return Ok(i);
        }
        i += 1;
    }
    Err(MockError::EventNotFound)
}

/// The three statements that swap the codes of two users without the two
/// ever holding the same code: the first user's code is set aside under a
/// marker, the second user takes it, and the first takes the second's.
pub open spec fn swap_statements(first: User, second: User) -> Seq<StatementView> {
    seq![
        StatementView::SetCode { user_id: first.id, code: first.code@.push('-') },
        StatementView::SetCode { user_id: second.id, code: first.code@ },
        StatementView::SetCode { user_id: first.id, code: second.code@ },
    ]
}

/// The statements that swap the codes of the two users of `users`.  With
/// any other number of users there is nothing to swap.
pub fn swap(users: &Vec<User>) -> (r: Result<Vec<Statement>, MockError>)
    ensures
        match r {
            Ok(out) => users@.len() == 2 && statement_views(out@) == swap_statements(
                users@[0],
                users@[1],
            ),
            Err(e) => users@.len() != 2 && e == MockError::NoUsersToSwap,
        },
{
    if users.len() != 2 {
        return Err(MockError::NoUsersToSwap);
    }
    let first = &users[0];
    let second = &users[1];
    let mut aside = first.code.clone();
    aside.append("-");
    proof {
        reveal_strlit("-");
        assert("-"@ =~= seq!['-']);
        assert(aside@ =~= first.code@.push('-'));
    }
    let mut out: Vec<Statement> = Vec::new();
    out.push(Statement::SetCode { user_id: first.id, code: aside });
    out.push(Statement::SetCode { user_id: second.id, code: first.code.clone() });
    out.push(Statement::SetCode { user_id: first.id, code: second.code.clone() });
    assert(statement_views(out@) =~= swap_statements(users@[0], users@[1]));
    Ok(out)
}

} // verus!
