//! The difference between the local roster and the cloud roster: which
//! users are deleted, which are updated and which are created.

use crate::index::RosterIndex;
use crate::roster::{entries, entry_of, has_id, Entry, UserWithPointIds};
use vstd::prelude::*;

verus! {

/// The ids of the local users that the cloud no longer has, in local order.
pub open spec fn deleted_ids(local: Seq<Entry>, cloud: Seq<Entry>) -> Seq<i64>
    decreases local.len(),
{
    if local.len() == 0 {
        Seq::empty()
    } else {
        let rest = deleted_ids(local.drop_last(), cloud);
        if has_id(cloud, local.last().user.id) {
            rest
        } else {
            rest.push(local.last().user.id)
        }
    }
}

/// The cloud user `c` exists locally and differs there, in its record or in
/// its set of points.
pub open spec fn differs(local: Seq<Entry>, c: Entry) -> bool {
    has_id(local, c.user.id) && !entry_of(local, c.user.id).agrees(c)
}

/// The cloud users that exist locally and differ there, in cloud order.
pub open spec fn updated(local: Seq<Entry>, cloud: Seq<Entry>) -> Seq<Entry>
    decreases cloud.len(),
{
    if cloud.len() == 0 {
        Seq::empty()
    } else {
        let rest = updated(local, cloud.drop_last());
        if differs(local, cloud.last()) {
            rest.push(cloud.last())
        } else {
            rest
        }
    }
}

/// The cloud users that do not exist locally, in cloud order.
pub open spec fn created(local: Seq<Entry>, cloud: Seq<Entry>) -> Seq<Entry>
    decreases cloud.len(),
{
    if cloud.len() == 0 {
        Seq::empty()
    } else {
        let rest = created(local, cloud.drop_last());
        if has_id(local, cloud.last().user.id) {
            rest
        } else {
            rest.push(cloud.last())
        }
    }
}

/// Computes `deleted_ids`.
pub fn users_to_delete(local: &Vec<UserWithPointIds>, cloud: &Vec<UserWithPointIds>) -> (out: Vec<
    i64,
>)
    ensures
        out@ == deleted_ids(entries(local@), entries(cloud@)),
{
    let ghost l = entries(local@);
    let ghost c = entries(cloud@);
    let in_cloud = RosterIndex::build(cloud);
    let mut out: Vec<i64> = Vec::new();
    let mut i: usize = 0;
    while i < local.len()
        invariant
            i <= local.len(),
            l == entries(local@),
            c == entries(cloud@),
            in_cloud.indexes(c),
            out@ == deleted_ids(l.take(i as int), c),
        decreases local.len() - i,
    {
        assert(l.take(i + 1).drop_last() =~= l.take(i as int));
        assert(l.take(i + 1).last() == local@[i as int]@);
        if in_cloud.find(cloud, local[i].user.id).is_none() {
            out.push(local[i].user.id);
        }
        i += 1;
    }
    assert(l.take(local.len() as int) =~= l);
    out
}

/// Computes `updated`.
pub fn users_to_update(local: &Vec<UserWithPointIds>, cloud: &Vec<UserWithPointIds>) -> (out: Vec<
    UserWithPointIds,
>)
    ensures
        entries(out@) == updated(entries(local@), entries(cloud@)),
{
    let ghost l = entries(local@);
    let ghost c = entries(cloud@);
    let in_local = RosterIndex::build(local);
    let mut out: Vec<UserWithPointIds> = Vec::new();
    let mut i: usize = 0;
    assert(entries(out@) =~= updated(l, c.take(0)));
    while i < cloud.len()
        invariant
            i <= cloud.len(),
            l == entries(local@),
            c == entries(cloud@),
            in_local.indexes(l),
            entries(out@) == updated(l, c.take(i as int)),
        decreases cloud.len() - i,
    {
        assert(c.take(i + 1).drop_last() =~= c.take(i as int));
        assert(c.take(i + 1).last() == cloud@[i as int]@);
        let ghost before = entries(out@);
        match in_local.find(local, cloud[i].user.id) {
            Some(k) => {
                assert(l[k as int] == local@[k as int]@);
                if !local[k].agrees_with(&cloud[i]) {
                    out.push(cloud[i].duplicate());
                    assert(entries(out@) =~= before.push(cloud@[i as int]@));
                }
            },
            None => {},
        }
        i += 1;
    }
    assert(c.take(cloud.len() as int) =~= c);
    out
}

/// Computes `created`.
pub fn users_to_create(local: &Vec<UserWithPointIds>, cloud: &Vec<UserWithPointIds>) -> (out: Vec<
    UserWithPointIds,
>)
    ensures
        entries(out@) == created(entries(local@), entries(cloud@)),
{
    let ghost l = entries(local@);
    let ghost c = entries(cloud@);
    let in_local = RosterIndex::build(local);
    let mut out: Vec<UserWithPointIds> = Vec::new();
    let mut i: usize = 0;
    assert(entries(out@) =~= created(l, c.take(0)));
    while i < cloud.len()
        invariant
            i <= cloud.len(),
            l == entries(local@),
            c == entries(cloud@),
            in_local.indexes(l),
            entries(out@) == created(l, c.take(i as int)),
        decreases cloud.len() - i,
    {
        assert(c.take(i + 1).drop_last() =~= c.take(i as int));
        assert(c.take(i + 1).last() == cloud@[i as int]@);
        let ghost before = entries(out@);
        if in_local.find(local, cloud[i].user.id).is_none() {
            out.push(cloud[i].duplicate());
            assert(entries(out@) =~= before.push(cloud@[i as int]@));
        }
        i += 1;
    }
    assert(c.take(cloud.len() as int) =~= c);
    out
}

} // verus!
