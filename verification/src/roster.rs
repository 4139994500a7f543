//! Rosters: users together with the points they are linked to, and the
//! mathematical model in which rosters are compared.

use crate::domain::{Point, User, UserView};
use crate::index::RosterIndex;
use vstd::prelude::*;

verus! {

/// A user and the ids of the points the user is linked to.
#[derive(Debug, Clone, PartialEq, Eq)]
pub struct UserWithPointIds {
    pub user: User,
    pub point_ids: Vec<i64>,
}

/// What a `UserWithPointIds` is, as plain values.
pub struct Entry {
    pub user: UserView,
    pub point_ids: Seq<i64>,
}

impl View for UserWithPointIds {
    type V = Entry;

    open spec fn view(&self) -> Entry {
        Entry { user: self.user@, point_ids: self.point_ids@ }
    }
}

/// What the store holds of one user: the record and the set of linked points.
pub struct Record {
    pub user: UserView,
    pub points: Set<i64>,
}

impl Entry {
    /// The entry without the order and repetition of its point ids.
    pub open spec fn record(self) -> Record {
        Record { user: self.user, points: self.point_ids.to_set() }
    }

    /// Two entries describe the same user with the same set of points.
    pub open spec fn agrees(self, other: Entry) -> bool {
        self.user == other.user && self.point_ids.to_set() == other.point_ids.to_set()
    }
}

/// The views of a sequence of users, element by element.
pub open spec fn entries(v: Seq<UserWithPointIds>) -> Seq<Entry> {
    Seq::new(v.len(), |i: int| v[i]@)
}

/// Some entry of `s` has the id `id`.
pub open spec fn has_id(s: Seq<Entry>, id: i64) -> bool {
    exists|i: int| 0 <= i < s.len() && (#[trigger] s[i]).user.id == id
}

/// The first position in `s` of an entry with the id `id`.
pub open spec fn position_of(s: Seq<Entry>, id: i64) -> int {
    choose|i: int|
        0 <= i < s.len() && (#[trigger] s[i]).user.id == id && forall|j: int|
            0 <= j < i ==> (#[trigger] s[j]).user.id != id
}

/// The first entry of `s` with the id `id`.
pub open spec fn entry_of(s: Seq<Entry>, id: i64) -> Entry {
    s[position_of(s, id)]
}

/// No two entries of `s` share an id.
pub open spec fn distinct_ids(s: Seq<Entry>) -> bool {
    forall|i: int, j: int|
        0 <= i < j < s.len() ==> (#[trigger] s[i]).user.id != (#[trigger] s[j]).user.id
}

/// The position of the first user with the id `id`, if there is one.
pub fn find_user(users: &Vec<UserWithPointIds>, id: i64) -> (r: Option<usize>)
    ensures
        r is Some <==> has_id(entries(users@), id),
        r matches Some(i) ==> i < users.len() && i == position_of(entries(users@), id)
            && users@[i as int].user.id == id,
{
    let mut i: usize = 0;
    while i < users.len()
        invariant
            i <= users.len(),
            forall|j: int| 0 <= j < i ==> (#[trigger] entries(users@)[j]).user.id != id,
        decreases users.len() - i,
    {
        if users[i].user.id == id {
            proof {
                let s = entries(users@);
                assert(s[i as int].user.id == id);
                let k = position_of(s, id);
                assert(k == i);
            }
            return Some(i);
        }
        i += 1;
    }
    None
}

/// Decides whether `id` occurs in `points`.
pub fn contains_point(points: &Vec<i64>, id: i64) -> (r: bool)
    ensures
        r == points@.contains(id),
{
    let mut i: usize = 0;
    while i < points.len()
        invariant
            i <= points.len(),
            forall|j: int| 0 <= j < i ==> points@[j] != id,
        decreases points.len() - i,
    {
        if points[i] == id {
            return true;
        }
        i += 1;
    }
    false
}

/// Decides whether every element of `a` occurs in `b`.
pub fn points_within(a: &Vec<i64>, b: &Vec<i64>) -> (r: bool)
    ensures
        r == a@.to_set().subset_of(b@.to_set()),
{
    let mut i: usize = 0;
    while i < a.len()
        invariant
            i <= a.len(),
            forall|j: int| 0 <= j < i ==> b@.contains(#[trigger] a@[j]),
        decreases a.len() - i,
    {
        if !contains_point(b, a[i]) {
            assert(a@.to_set().contains(a@[i as int]));
            return false;
        }
        i += 1;
    }
    true
}

/// Decides whether `a` and `b` hold the same point ids, whatever their order
/// and however often each id is repeated.
pub fn same_point_set(a: &Vec<i64>, b: &Vec<i64>) -> (r: bool)
    ensures
        r == (a@.to_set() == b@.to_set()),
{
    let r = points_within(a, b) && points_within(b, a);
    proof {
        if r {
            assert(a@.to_set() =~= b@.to_set());
        }
    }
    r
}

impl UserWithPointIds {
    /// Decides whether two entries describe the same user with the same set
    /// of points.
    pub fn agrees_with(&self, other: &UserWithPointIds) -> (r: bool)
        ensures
            r == self@.agrees(other@),
    {
        self.user.same_as(&other.user) && same_point_set(&self.point_ids, &other.point_ids)
    }

    /// A copy with the same view.
    pub fn duplicate(&self) -> (r: UserWithPointIds)
        ensures
            r@ == self@,
    {
        UserWithPointIds { user: self.user.duplicate(), point_ids: self.point_ids.clone() }
    }
}

/// The elements of `s` in the order of their first occurrence, each once.
pub open spec fn first_occurrences(s: Seq<i64>) -> Seq<i64>
    decreases s.len(),
{
    if s.len() == 0 {
        Seq::empty()
    } else {
        let rest = first_occurrences(s.drop_last());
        if rest.contains(s.last()) {
            rest
        } else {
            rest.push(s.last())
        }
    }
}

/// `first_occurrences` keeps the set of elements and repeats none.
pub proof fn law_first_occurrences(s: Seq<i64>)
    ensures
        first_occurrences(s).no_duplicates(),
        first_occurrences(s).to_set() == s.to_set(),
        first_occurrences(s).len() <= s.len(),
    decreases s.len(),
{
    if s.len() == 0 {
        assert(first_occurrences(s).to_set() =~= s.to_set());
    } else {
        let front = s.drop_last();
        let rest = first_occurrences(front);
        law_first_occurrences(front);
        let out = first_occurrences(s);
        assert forall|x: i64| out.to_set().contains(x) <==> s.to_set().contains(x) by {
            if s.contains(x) {
                let i = choose|i: int| 0 <= i < s.len() && s[i] == x;
                if i < s.len() - 1 {
                    assert(front[i] == x);
                    assert(front.to_set().contains(x));
                    assert(rest.to_set().contains(x));
                    let k = choose|k: int| 0 <= k < rest.len() && rest[k] == x;
                    assert(out[k] == x);
                } else if rest.contains(x) {
                } else {
                    assert(out[rest.len() as int] == x);
                }
            }
            if out.contains(x) {
                let k = choose|k: int| 0 <= k < out.len() && out[k] == x;
                if k < rest.len() {
                    assert(rest[k] == x);
                    assert(rest.to_set().contains(x));
                    assert(front.to_set().contains(x));
                    let i = choose|i: int| 0 <= i < front.len() && front[i] == x;
                    assert(s[i] == x);
                } else {
                    assert(s[s.len() - 1] == x);
                }
            }
        }
        assert(out.to_set() =~= s.to_set());
    }
}

/// The point ids of `points`, each once, in the order of first occurrence.
pub fn distinct_points(points: &Vec<i64>) -> (out: Vec<i64>)
    ensures
        out@ == first_occurrences(points@),
{
    let mut out: Vec<i64> = Vec::new();
    let mut i: usize = 0;
    while i < points.len()
        invariant
            i <= points.len(),
            out@ == first_occurrences(points@.take(i as int)),
        decreases points.len() - i,
    {
        assert(points@.take(i + 1).drop_last() =~= points@.take(i as int));
        if !contains_point(&out, points[i]) {
            out.push(points[i]);
        }
        i += 1;
    }
    assert(points@.take(points.len() as int) =~= points@);
    out
}

/// The roster as a map from user id to record.  Of two entries with the same
/// id, the first counts.
pub open spec fn as_map(s: Seq<Entry>) -> Map<i64, Record>
    decreases s.len(),
{
    if s.len() == 0 {
        Map::empty()
    } else {
        let m = as_map(s.drop_last());
        if m.contains_key(s.last().user.id) {
            m
        } else {
            m.insert(s.last().user.id, s.last().record())
        }
    }
}

/// The first position of an id is where the id occurs with no occurrence
/// before it.
pub(crate) proof fn lemma_position(s: Seq<Entry>, id: i64, k: int)
    requires
        0 <= k < s.len(),
        s[k].user.id == id,
        forall|j: int| 0 <= j < k ==> (#[trigger] s[j]).user.id != id,
    ensures
        has_id(s, id),
        position_of(s, id) == k,
{
    let p = position_of(s, id);
    if p < k {
        assert(s[p].user.id != id);
    } else if k < p {
        assert(s[k].user.id == id);
    }
}

/// Where an id occurs, its first position is a position of it.
pub(crate) proof fn lemma_position_of(s: Seq<Entry>, id: i64)
    requires
        has_id(s, id),
    ensures
        0 <= position_of(s, id) < s.len(),
        s[position_of(s, id)].user.id == id,
        forall|j: int| 0 <= j < position_of(s, id) ==> (#[trigger] s[j]).user.id != id,
    decreases s.len(),
{
    let k = choose|k: int| 0 <= k < s.len() && (#[trigger] s[k]).user.id == id;
    lemma_first_position(s, id, k);
}

proof fn lemma_first_position(s: Seq<Entry>, id: i64, k: int)
    requires
        0 <= k < s.len(),
        s[k].user.id == id,
    ensures
        0 <= position_of(s, id) < s.len(),
        s[position_of(s, id)].user.id == id,
        forall|j: int| 0 <= j < position_of(s, id) ==> (#[trigger] s[j]).user.id != id,
    decreases k,
{
    if exists|j: int| 0 <= j < k && (#[trigger] s[j]).user.id == id {
        let j = choose|j: int| 0 <= j < k && (#[trigger] s[j]).user.id == id;
        lemma_first_position(s, id, j);
    } else {
        lemma_position(s, id, k);
    }
}

/// An id occurs in a roster where it occurs before the last entry or is the
/// id of the last entry.
pub(crate) proof fn lemma_has_id_last(s: Seq<Entry>, id: i64)
    requires
        s.len() > 0,
    ensures
        has_id(s, id) <==> has_id(s.drop_last(), id) || s.last().user.id == id,
{
    let front = s.drop_last();
    if has_id(s, id) {
        let k = choose|k: int| 0 <= k < s.len() && (#[trigger] s[k]).user.id == id;
        if k < front.len() {
            assert(front[k].user.id == id);
        }
    }
    if has_id(front, id) {
        let k = choose|k: int| 0 <= k < front.len() && (#[trigger] front[k]).user.id == id;
        assert(s[k].user.id == id);
    }
    if s.last().user.id == id {
        assert(s[s.len() - 1].user.id == id);
    }
}

/// The first position of an id in a roster is its first position before the
/// last entry, where it occurs there, and else the position of the last
/// entry.
pub(crate) proof fn lemma_position_last(s: Seq<Entry>, id: i64)
    requires
        s.len() > 0,
        has_id(s, id),
    ensures
        position_of(s, id) == if has_id(s.drop_last(), id) {
            position_of(s.drop_last(), id)
        } else {
            s.len() - 1
        },
        entry_of(s, id) == if has_id(s.drop_last(), id) {
            entry_of(s.drop_last(), id)
        } else {
            s.last()
        },
{
    let front = s.drop_last();
    lemma_has_id_last(s, id);
    if has_id(front, id) {
        lemma_position_of(front, id);
        let p = position_of(front, id);
        assert(s[p] == front[p]);
        assert forall|j: int| 0 <= j < p implies (#[trigger] s[j]).user.id != id by {
            assert(s[j] == front[j]);
        }
        lemma_position(s, id, p);
    } else {
        assert forall|j: int| 0 <= j < s.len() - 1 implies (#[trigger] s[j]).user.id != id by {
            assert(front[j] == s[j]);
        }
        lemma_position(s, id, s.len() - 1);
    }
}

/// The map has exactly the ids of the roster, each with the record of its
/// first entry.
pub proof fn law_roster_map(s: Seq<Entry>, id: i64)
    ensures
        as_map(s).contains_key(id) == has_id(s, id),
        has_id(s, id) ==> as_map(s)[id] == entry_of(s, id).record(),
    decreases s.len(),
{
    if s.len() > 0 {
        let front = s.drop_last();
        let last = s.last();
        law_roster_map(front, id);
        law_roster_map(front, last.user.id);
        lemma_has_id_last(s, id);
        if has_id(s, id) {
            lemma_position_last(s, id);
        }
    } else {
        assert(!has_id(s, id));
    }
}

/// Replacing the first entry of an id by another entry of that id replaces
/// the id's record in the map.
pub(crate) proof fn lemma_as_map_update(s: Seq<Entry>, k: int, e: Entry)
    requires
        has_id(s, e.user.id),
        k == position_of(s, e.user.id),
    ensures
        0 <= k < s.len(),
        as_map(s.update(k, e)) == as_map(s).insert(e.user.id, e.record()),
{
    let id = e.user.id;
    lemma_position_of(s, id);
    let t = s.update(k, e);
    let want = as_map(s).insert(id, e.record());
    assert forall|x: i64|
        #![trigger as_map(t).dom().contains(x)]
        #![trigger as_map(t)[x]]
        as_map(t).dom().contains(x) == want.dom().contains(x) && (as_map(t).dom().contains(x)
            ==> as_map(t)[x] == want[x]) by {
        law_roster_map(s, x);
        law_roster_map(t, x);
        if has_id(s, x) {
            lemma_position_of(s, x);
            let p = position_of(s, x);
            assert(t[p].user.id == x);
            assert forall|j: int| 0 <= j < p implies (#[trigger] t[j]).user.id != x by {
                assert(s[j].user.id != x);
            }
            lemma_position(t, x, p);
        } else if has_id(t, x) {
            lemma_position_of(t, x);
            let p = position_of(t, x);
            assert(s[p].user.id == x);
        }
    }
    assert(as_map(t) =~= as_map(s).insert(id, e.record()));
}

/// Some point of `points` has the id `id`.
pub open spec fn known_point(points: Seq<Point>, id: i64) -> bool {
    exists|i: int| 0 <= i < points.len() && (#[trigger] points[i]).id == id
}

/// Every point id of `e` belongs to a point of `points`.
pub open spec fn links_known(points: Seq<Point>, e: Entry) -> bool {
    forall|j: int| 0 <= j < e.point_ids.len() ==> known_point(points, #[trigger] e.point_ids[j])
}

/// Every point id in `cloud` belongs to a point of `points`.
pub open spec fn references_known_points(points: Seq<Point>, cloud: Seq<Entry>) -> bool {
    forall|i: int| 0 <= i < cloud.len() ==> links_known(points, #[trigger] cloud[i])
}

/// Decides `known_point`.
pub fn is_known_point(points: &Vec<Point>, id: i64) -> (r: bool)
    ensures
        r == known_point(points@, id),
{
    let mut i: usize = 0;
    while i < points.len()
        invariant
            i <= points.len(),
            forall|j: int| 0 <= j < i ==> (#[trigger] points@[j]).id != id,
        decreases points.len() - i,
    {
        if points[i].id == id {
            return true;
        }
        i += 1;
    }
    false
}

/// Decides `links_known`.
pub fn has_known_links(points: &Vec<Point>, user: &UserWithPointIds) -> (r: bool)
    ensures
        r == links_known(points@, user@),
{
    let mut j: usize = 0;
    while j < user.point_ids.len()
        invariant
            j <= user.point_ids.len(),
            forall|k: int| 0 <= k < j ==> known_point(points@, #[trigger] user@.point_ids[k]),
        decreases user.point_ids.len() - j,
    {
        if !is_known_point(points, user.point_ids[j]) {
            assert(!known_point(points@, user@.point_ids[j as int]));
            return false;
        }
        j += 1;
    }
    true
}

/// Decides `distinct_ids`.
pub fn has_distinct_ids(users: &Vec<UserWithPointIds>) -> (r: bool)
    ensures
        r == distinct_ids(entries(users@)),
{
    let ghost s = entries(users@);
    let index = RosterIndex::build(users);
    let mut i: usize = 0;
    while i < users.len()
        invariant
            i <= users.len(),
            s == entries(users@),
            index.indexes(s),
            forall|a: int, b: int|
                0 <= a < b < s.len() && b < i ==> (#[trigger] s[a]).user.id != (
                #[trigger] s[b]).user.id,
        decreases users.len() - i,
    {
        let first = index.find(users, users[i].user.id);
        proof {
            assert(s[i as int].user.id == users[i as int].user.id);
        }
        match first {
            Some(k) => {
                if k != i {
                    proof {
                        let p = position_of(s, users[i as int].user.id);
                        assert(s[p].user.id == s[i as int].user.id);
                        assert(p < i);
                    }
                    return false;
                }
            },
            None => {
                return false;
            },
        }
        i += 1;
    }
    true
}

} // verus!
