//! An index from user id to the first position of the id in a roster, for
//! lookups that do not walk the roster.

use crate::roster::{
    entries, has_id, lemma_has_id_last, lemma_position, lemma_position_of, position_of, Entry,
    UserWithPointIds,
};
use std::collections::HashMap;
use vstd::prelude::*;

verus! {

broadcast use vstd::std_specs::hash::group_hash_axioms;

/// `m` holds exactly the ids of `s`, each with its first position in `s`.
#[verifier::opaque]
pub open spec fn positions_of(m: Map<i64, usize>, s: Seq<Entry>) -> bool {
    forall|id: i64|
        (#[trigger] m.contains_key(id)) == has_id(s, id) && (has_id(s, id) ==> m[id] as int
            == position_of(s, id))
}

proof fn lemma_index_at(
    before: Map<i64, usize>,
    after: Map<i64, usize>,
    s: Seq<Entry>,
    i: usize,
    x: i64,
)
    requires
        s.len() == i + 1,
        positions_of(before, s.drop_last()),
        after == if before.contains_key(s.last().user.id) {
            before
        } else {
            before.insert(s.last().user.id, i)
        },
    ensures
        after.contains_key(x) == has_id(s, x),
        has_id(s, x) ==> after[x] as int == position_of(s, x),
{
    reveal(positions_of);
    let front = s.drop_last();
    lemma_has_id_last(s, x);
    assert(before.contains_key(x) == has_id(front, x));
    if has_id(front, x) {
        lemma_position_of(front, x);
        let p = position_of(front, x);
        assert(s[p] == front[p]);
        assert forall|j: int| 0 <= j < p implies (#[trigger] s[j]).user.id != x by {
            assert(s[j] == front[j]);
        }
        lemma_position(s, x, p);
    } else if x == s.last().user.id {
        assert forall|j: int| 0 <= j < i implies (#[trigger] s[j]).user.id != x by {
            assert(s[j] == front[j]);
        }
        lemma_position(s, x, i as int);
    }
}

proof fn lemma_index_step(
    before: Map<i64, usize>,
    after: Map<i64, usize>,
    s: Seq<Entry>,
    i: usize,
)
    requires
        s.len() == i + 1,
        positions_of(before, s.drop_last()),
        after == if before.contains_key(s.last().user.id) {
            before
        } else {
            before.insert(s.last().user.id, i)
        },
    ensures
        positions_of(after, s),
{
    reveal(positions_of);
    assert forall|x: i64|
        (#[trigger] after.contains_key(x)) == has_id(s, x) && (has_id(s, x) ==> after[x] as int
            == position_of(s, x)) by {
        lemma_index_at(before, after, s, i, x);
    }
}

proof fn lemma_index_empty(s: Seq<Entry>)
    requires
        s.len() == 0,
    ensures
        positions_of(Map::<i64, usize>::empty(), s),
{
    reveal(positions_of);
}

proof fn lemma_index_find(m: Map<i64, usize>, s: Seq<Entry>, id: i64)
    requires
        positions_of(m, s),
    ensures
        m.contains_key(id) == has_id(s, id),
        has_id(s, id) ==> m[id] as int == position_of(s, id) && 0 <= position_of(s, id) < s.len()
            && s[position_of(s, id)].user.id == id,
{
    reveal(positions_of);
    if has_id(s, id) {
        lemma_position_of(s, id);
    }
}

/// The first position of every id of a roster.
#[derive(Debug)]
pub struct RosterIndex {
    pub positions: HashMap<i64, usize>,
}

impl RosterIndex {
    /// The index holds exactly the ids of `s`, each with its first position
    /// in `s`.
    pub open spec fn indexes(&self, s: Seq<Entry>) -> bool {
        positions_of(self.positions@, s)
    }

    /// The index of `users`.
    pub fn build(users: &Vec<UserWithPointIds>) -> (idx: RosterIndex)
        ensures
            idx.indexes(entries(users@)),
    {
        let ghost l = entries(users@);
        let mut positions: HashMap<i64, usize> = HashMap::new();
        let mut i: usize = 0;
        proof {
            lemma_index_empty(l.take(0));
        }
        while i < users.len()
            invariant
                i <= users.len(),
                l == entries(users@),
                positions_of(positions@, l.take(i as int)),
            decreases users.len() - i,
        {
            let id = users[i].user.id;
            let ghost before = positions@;
            if !positions.contains_key(&id) {
                positions.insert(id, i);
            }
            proof {
                let next = l.take(i + 1);
                assert(next.drop_last() =~= l.take(i as int));
                assert(next.last() == users@[i as int]@);
                lemma_index_step(before, positions@, next, i);
            }
            i += 1;
        }
        assert(l.take(users.len() as int) =~= l);
        RosterIndex { positions }
    }

    /// The position of the first user of `users` with the id `id`, if there
    /// is one.
    pub fn find(&self, users: &Vec<UserWithPointIds>, id: i64) -> (r: Option<usize>)
        requires
            self.indexes(entries(users@)),
        ensures
            r is Some <==> has_id(entries(users@), id),
            r matches Some(i) ==> i < users.len() && i == position_of(entries(users@), id)
                && users@[i as int].user.id == id,
    {
        proof {
            lemma_index_find(self.positions@, entries(users@), id);
        }
        match self.positions.get(&id) {
            Some(i) => Some(*i),
            None => None,
        }
    }
}

} // verus!
