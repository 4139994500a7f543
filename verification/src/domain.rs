//! The records of the local store and their mathematical views.

use vstd::prelude::*;
use vstd::string::StringExecFns;

verus! {

/// An instant on the UTC time line: whole seconds since 1970-01-01T00:00:00Z
/// and the nanoseconds past that second.  Instants are ordered by seconds,
/// then by nanoseconds.
#[derive(Clone, Copy, Debug, PartialEq, Eq, Structural)]
pub struct Timestamp {
    pub secs: i64,
    pub nanos: u32,
}

impl Timestamp {
    /// `self` lies strictly before `other`.
    pub open spec fn before(self, other: Timestamp) -> bool {
        self.secs < other.secs || (self.secs == other.secs && self.nanos < other.nanos)
    }

    /// `self` lies at or before `other`.
    pub open spec fn at_or_before(self, other: Timestamp) -> bool {
        self == other || self.before(other)
    }

    /// The instant `nanos` nanoseconds after the second `secs`.
    pub fn new(secs: i64, nanos: u32) -> (t: Timestamp)
        ensures
            t == (Timestamp { secs, nanos }),
    {
        Timestamp { secs, nanos }
    }

    /// Decides `self.before(other)`.
    pub fn is_before(&self, other: &Timestamp) -> (r: bool)
        ensures
            r == self.before(*other),
    {
        self.secs < other.secs || (self.secs == other.secs && self.nanos < other.nanos)
    }

    /// Decides `self.at_or_before(other)`.
    pub fn is_at_or_before(&self, other: &Timestamp) -> (r: bool)
        ensures
            r == self.at_or_before(*other),
    {
        self.secs < other.secs || (self.secs == other.secs && self.nanos <= other.nanos)
    }

    /// The instant `seconds` whole seconds earlier, or `None` where that
    /// instant cannot be held in an `i64` count of seconds.
    pub fn minus_seconds(&self, seconds: i64) -> (r: Option<Timestamp>)
        ensures
            r == Self::shifted_back(*self, seconds as int),
    {
        match self.secs.checked_sub(seconds) {
            Some(secs) => Some(Timestamp { secs, nanos: self.nanos }),
            None => None,
        }
    }

    /// `t` moved back by `seconds`, where the result fits.
    pub open spec fn shifted_back(t: Timestamp, seconds: int) -> Option<Timestamp> {
        if i64::MIN <= t.secs - seconds <= i64::MAX {
            Some(Timestamp { secs: (t.secs - seconds) as i64, nanos: t.nanos })
        } else {
            None
        }
    }
}

/// Decides whether two optional instants are the same.
pub fn same_moment(a: &Option<Timestamp>, b: &Option<Timestamp>) -> (r: bool)
    ensures
        r == (*a == *b),
{
    match (a, b) {
        (None, None) => true,
        (Some(x), Some(y)) => x.secs == y.secs && x.nanos == y.nanos,
        _ => false,
    }
}

/// The hub itself: one record, with the credential for the cloud and the
/// instant of the last event that the cloud has acknowledged.
#[derive(Debug)]
pub struct Hub {
    pub id: i64,
    pub api_token: String,
    pub cloud_last_access_event_at: Option<Timestamp>,
}

/// A physical access point; `position` is its 1-based hardware slot.
#[derive(Debug, Clone, Copy, PartialEq, Eq, Structural)]
pub struct Point {
    pub id: i64,
    pub position: i64,
}

/// One association between a point and a user.
#[derive(Debug, Clone, Copy, PartialEq, Eq, Structural)]
pub struct Point2User {
    pub access_point_id: i64,
    pub access_user_id: i64,
}

/// A person who may present `code` at the points they are linked to.
#[derive(Debug, Clone, PartialEq, Eq)]
pub struct User {
    pub id: i64,
    pub name: String,
    pub code: String,
    pub activate_code_at: Option<Timestamp>,
    pub expire_code_at: Option<Timestamp>,
}

/// What a `User` is, as plain values.
pub struct UserView {
    pub id: i64,
    pub name: Seq<char>,
    pub code: Seq<char>,
    pub activate_code_at: Option<Timestamp>,
    pub expire_code_at: Option<Timestamp>,
}

impl View for User {
    type V = UserView;

    open spec fn view(&self) -> UserView {
        UserView {
            id: self.id,
            name: self.name@,
            code: self.code@,
            activate_code_at: self.activate_code_at,
            expire_code_at: self.expire_code_at,
        }
    }
}

/// A code is active at `now` when `now` lies in `[activate, expire)`; a
/// missing bound is no bound.
pub open spec fn active_at(
    activate: Option<Timestamp>,
    expire: Option<Timestamp>,
    now: Timestamp,
) -> bool {
    &&& activate matches Some(a) ==> a.at_or_before(now)
    &&& expire matches Some(e) ==> now.before(e)
}

/// Decides `active_at`.
pub fn is_active_at(
    activate: &Option<Timestamp>,
    expire: &Option<Timestamp>,
    now: &Timestamp,
) -> (r: bool)
    ensures
        r == active_at(*activate, *expire, *now),
{
    let started = match activate {
        Some(a) => a.is_at_or_before(now),
        None => true,
    };
    let running = match expire {
        Some(e) => now.is_before(e),
        None => true,
    };
    started && running
}

impl User {
    /// Decides whether two users agree in every field.
    pub fn same_as(&self, other: &User) -> (r: bool)
        ensures
            r == (self@ == other@),
    {
        self.id == other.id && self.name == other.name && self.code == other.code && same_moment(
            &self.activate_code_at,
            &other.activate_code_at,
        ) && same_moment(&self.expire_code_at, &other.expire_code_at)
    }

    /// A copy with the same view.
    pub fn duplicate(&self) -> (r: User)
        ensures
            r@ == self@,
    {
        User {
            id: self.id,
            name: self.name.clone(),
            code: self.code.clone(),
            activate_code_at: self.activate_code_at,
            expire_code_at: self.expire_code_at,
        }
    }
}

/// A user with the points the user is linked to.
#[derive(Debug)]
pub struct UserWithRelations {
    pub user: User,
    pub points: Vec<Point>,
}

/// A point with the users that are linked to it.
#[derive(Debug)]
pub struct PointWithRelations {
    pub point: Point,
    pub users: Vec<User>,
}

/// The hub with its points and its users.
#[derive(Debug)]
pub struct HubWithRelations {
    pub hub: Hub,
    pub points: Vec<Point>,
    pub users: Vec<UserWithRelations>,
}

/// The views of a sequence of users, element by element.
pub open spec fn user_views(v: Seq<User>) -> Seq<UserView> {
    Seq::new(v.len(), |i: int| v[i]@)
}

/// A code as it stands at one point: who holds it there, and when it is
/// valid.
#[derive(Debug, Clone)]
pub struct ActiveCode {
    pub access_point_id: i64,
    pub position: i64,
    pub code: String,
    pub access_user_id: i64,
    pub activate_code_at: Option<Timestamp>,
    pub expire_code_at: Option<Timestamp>,
}

/// What an `ActiveCode` is, as plain values.
pub struct ActiveCodeView {
    pub access_point_id: i64,
    pub position: i64,
    pub code: Seq<char>,
    pub access_user_id: i64,
    pub activate_code_at: Option<Timestamp>,
    pub expire_code_at: Option<Timestamp>,
}

impl View for ActiveCode {
    type V = ActiveCodeView;

    open spec fn view(&self) -> ActiveCodeView {
        ActiveCodeView {
            access_point_id: self.access_point_id,
            position: self.position,
            code: self.code@,
            access_user_id: self.access_user_id,
            activate_code_at: self.activate_code_at,
            expire_code_at: self.expire_code_at,
        }
    }
}

/// The outcome recorded with an event.
#[derive(Debug, Clone, Copy, PartialEq, Eq, Structural)]
pub enum Access {
    Grant,
    Deny,
}

impl Access {
    /// The word under which the outcome is stored and sent.
    pub open spec fn word(self) -> Seq<char> {
        match self {
            Access::Grant => "grant"@,
            Access::Deny => "deny"@,
        }
    }

    /// The outcome that `word` stands for, if it stands for one.
    pub open spec fn of_word(word: Seq<char>) -> Option<Access> {
        if word == "grant"@ {
            Some(Access::Grant)
        } else if word == "deny"@ {
            Some(Access::Deny)
        } else {
            None
        }
    }

    /// The outcome as `grant` or `deny`.
    pub fn label(&self) -> (r: String)
        ensures
            r@ == self.word(),
    {
        match self {
            Access::Grant => String::from_str("grant"),
            Access::Deny => String::from_str("deny"),
        }
    }

    /// Reads an outcome from `grant` or `deny`; any other word is none.
    pub fn from_label(word: &str) -> (r: Option<Access>)
        ensures
            r == Self::of_word(word@),
    {
        let given = word.to_owned();
        if given == String::from_str("grant") {
            Some(Access::Grant)
        } else if given == String::from_str("deny") {
            Some(Access::Deny)
        } else {
            None
        }
    }
}

/// One entry of the append-only event log.  `access_user_id` is present
/// exactly when `access` is `Grant`.
#[derive(Debug, Clone)]
pub struct Event {
    pub id: i64,
    pub at: Timestamp,
    pub access: Access,
    pub code: String,
    pub access_user_id: Option<i64>,
    pub access_point_id: i64,
}

/// What an `Event` is, as plain values.
pub struct EventView {
    pub id: i64,
    pub at: Timestamp,
    pub access: Access,
    pub code: Seq<char>,
    pub access_user_id: Option<i64>,
    pub access_point_id: i64,
}

impl View for Event {
    type V = EventView;

    open spec fn view(&self) -> EventView {
        EventView {
            id: self.id,
            at: self.at,
            access: self.access,
            code: self.code@,
            access_user_id: self.access_user_id,
            access_point_id: self.access_point_id,
        }
    }
}

/// The views of a sequence of events, element by element.
pub open spec fn event_views(v: Seq<Event>) -> Seq<EventView> {
    Seq::new(v.len(), |i: int| v[i]@)
}

impl EventView {
    /// The user is named exactly on a grant.
    pub open spec fn well_formed(self) -> bool {
        (self.access == Access::Grant) <==> self.access_user_id is Some
    }
}

} // verus!
