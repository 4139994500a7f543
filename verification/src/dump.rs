//! Listings of the store: each user with its points, each point with its
//! users.

use crate::domain::{
    user_views, Hub, HubWithRelations, Point, Point2User, PointWithRelations, User, UserView,
    UserWithRelations,
};
use crate::store::LocalStore;
use vstd::prelude::*;

verus! {

/// The ids of the points that `links` give the user, in the order of the
/// links.
pub open spec fn point_ids_of(links: Seq<Point2User>, user_id: i64) -> Seq<i64>
    decreases links.len(),
{
    if links.len() == 0 {
        Seq::empty()
    } else {
        let rest = point_ids_of(links.drop_last(), user_id);
        if links.last().access_user_id == user_id {
            rest.push(links.last().access_point_id)
        } else {
            rest
        }
    }
}

/// The ids of the users that `links` give the point, in the order of the
/// links.
pub open spec fn user_ids_of(links: Seq<Point2User>, point_id: i64) -> Seq<i64>
    decreases links.len(),
{
    if links.len() == 0 {
        Seq::empty()
    } else {
        let rest = user_ids_of(links.drop_last(), point_id);
        if links.last().access_point_id == point_id {
            rest.push(links.last().access_user_id)
        } else {
            rest
        }
    }
}

/// `i` is the first index of a point with the id `id`.
pub open spec fn first_point(points: Seq<Point>, id: i64, i: int) -> bool {
    &&& 0 <= i < points.len()
    &&& points[i].id == id
    &&& forall|j: int| 0 <= j < i ==> (#[trigger] points[j]).id != id
}

/// The first point with the id `id`, if there is one.
pub open spec fn point_by_id(points: Seq<Point>, id: i64) -> Option<Point> {
    if exists|i: int| first_point(points, id, i) {
        Some(points[choose|i: int| first_point(points, id, i)])
    } else {
        None
    }
}

/// `i` is the first index of a user with the id `id`.
pub open spec fn first_user(users: Seq<UserView>, id: i64, i: int) -> bool {
    &&& 0 <= i < users.len()
    &&& users[i].id == id
    &&& forall|j: int| 0 <= j < i ==> (#[trigger] users[j]).id != id
}

/// The first user with the id `id`, if there is one.
pub open spec fn user_by_id(users: Seq<UserView>, id: i64) -> Option<UserView> {
    if exists|i: int| first_user(users, id, i) {
        Some(users[choose|i: int| first_user(users, id, i)])
    } else {
        None
    }
}

/// The points that `ids` name, in the order of `ids`; an id that names no
/// point is passed over.
pub open spec fn points_named(points: Seq<Point>, ids: Seq<i64>) -> Seq<Point>
    decreases ids.len(),
{
    if ids.len() == 0 {
        Seq::empty()
    } else {
        let rest = points_named(points, ids.drop_last());
        match point_by_id(points, ids.last()) {
            Some(p) => rest.push(p),
            None => rest,
        }
    }
}

/// The users that `ids` name, in the order of `ids`; an id that names no
/// user is passed over.
pub open spec fn users_named(users: Seq<UserView>, ids: Seq<i64>) -> Seq<UserView>
    decreases ids.len(),
{
    if ids.len() == 0 {
        Seq::empty()
    } else {
        let rest = users_named(users, ids.drop_last());
        match user_by_id(users, ids.last()) {
            Some(u) => rest.push(u),
            None => rest,
        }
    }
}

/// Computes `point_ids_of`.
pub fn linked_point_ids(links: &Vec<Point2User>, user_id: i64) -> (out: Vec<i64>)
    ensures
        out@ == point_ids_of(links@, user_id),
{
    let mut out: Vec<i64> = Vec::new();
    let mut i: usize = 0;
    while i < links.len()
        invariant
            i <= links.len(),
            out@ == point_ids_of(links@.take(i as int), user_id),
        decreases links.len() - i,
    {
        assert(links@.take(i + 1).drop_last() =~= links@.take(i as int));
        if links[i].access_user_id == user_id {
            out.push(links[i].access_point_id);
        }
        i += 1;
    }
    assert(links@.take(links.len() as int) =~= links@);
    out
}

/// Computes `user_ids_of`.
pub fn linked_user_ids(links: &Vec<Point2User>, point_id: i64) -> (out: Vec<i64>)
    ensures
        out@ == user_ids_of(links@, point_id),
{
    let mut out: Vec<i64> = Vec::new();
    let mut i: usize = 0;
    while i < links.len()
        invariant
            i <= links.len(),
            out@ == user_ids_of(links@.take(i as int), point_id),
        decreases links.len() - i,
    {
        assert(links@.take(i + 1).drop_last() =~= links@.take(i as int));
        if links[i].access_point_id == point_id {
            out.push(links[i].access_user_id);
        }
        i += 1;
    }
    assert(links@.take(links.len() as int) =~= links@);
    out
}

/// The index of the first point with the id `id`, if there is one.
pub fn find_point(points: &Vec<Point>, id: i64) -> (r: Option<usize>)
    ensures
        match r {
            Some(i) => i < points.len() && point_by_id(points@, id) == Some(points@[i as int]),
            None => point_by_id(points@, id) is None,
        },
{
    let mut i: usize = 0;
    while i < points.len()
        invariant
            i <= points.len(),
            forall|j: int| 0 <= j < i ==> (#[trigger] points@[j]).id != id,
        decreases points.len() - i,
    {
        if points[i].id == id {
            proof {
                assert(first_point(points@, id, i as int));
                let k = choose|k: int| first_point(points@, id, k);
                assert(k == i) by {
                    if k < i {
                        assert(points@[k].id != id);
                    } else if i < k {
                        assert(points@[i as int].id == id);
                    }
                }
            }
            return Some(i);
        }
        i += 1;
    }
    None
}

/// The index of the first user with the id `id`, if there is one.
pub fn find_user_by_id(users: &Vec<User>, id: i64) -> (r: Option<usize>)
    ensures
        match r {
            Some(i) => i < users.len() && user_by_id(user_views(users@), id) == Some(
                users@[i as int]@,
            ),
            None => user_by_id(user_views(users@), id) is None,
        },
{
    let ghost s = user_views(users@);
    let mut i: usize = 0;
    while i < users.len()
        invariant
            i <= users.len(),
            s == user_views(users@),
            forall|j: int| 0 <= j < i ==> (#[trigger] s[j]).id != id,
        decreases users.len() - i,
    {
        assert(s[i as int] == users@[i as int]@);
        if users[i].id == id {
            proof {
                assert(first_user(s, id, i as int));
                let k = choose|k: int| first_user(s, id, k);
                assert(k == i) by {
                    if k < i {
                        assert(s[k].id != id);
                    } else if i < k {
                        assert(s[i as int].id == id);
                    }
                }
            }
            return Some(i);
        }
        i += 1;
    }
    None
}

/// Computes `points_named`.
pub fn resolve_points(points: &Vec<Point>, ids: &Vec<i64>) -> (out: Vec<Point>)
    ensures
        out@ == points_named(points@, ids@),
{
    let mut out: Vec<Point> = Vec::new();
    let mut i: usize = 0;
    while i < ids.len()
        invariant
            i <= ids.len(),
            out@ == points_named(points@, ids@.take(i as int)),
        decreases ids.len() - i,
    {
        assert(ids@.take(i + 1).drop_last() =~= ids@.take(i as int));
        match find_point(points, ids[i]) {
            Some(k) => {
                out.push(points[k]);
            },
            None => {},
        }
        i += 1;
    }
    assert(ids@.take(ids.len() as int) =~= ids@);
    out
}

/// Computes `users_named`.
pub fn resolve_users(users: &Vec<User>, ids: &Vec<i64>) -> (out: Vec<User>)
    ensures
        user_views(out@) == users_named(user_views(users@), ids@),
{
    let ghost s = user_views(users@);
    let mut out: Vec<User> = Vec::new();
    let mut i: usize = 0;
    assert(user_views(out@) =~= users_named(s, ids@.take(0)));
    while i < ids.len()
        invariant
            i <= ids.len(),
            s == user_views(users@),
            user_views(out@) == users_named(s, ids@.take(i as int)),
        decreases ids.len() - i,
    {
        assert(ids@.take(i + 1).drop_last() =~= ids@.take(i as int));
        let ghost before = user_views(out@);
        match find_user_by_id(users, ids[i]) {
            Some(k) => {
                out.push(users[k].duplicate());
                assert(user_views(out@) =~= before.push(users@[k as int]@));
            },
            None => {},
        }
        i += 1;
    }
    assert(ids@.take(ids.len() as int) =~= ids@);
    out
}

/// Each user of `users` with the points that `links` give it, as far as
/// `points` has them.
pub fn dump_users(users: &Vec<User>, links: &Vec<Point2User>, points: &Vec<Point>) -> (out: Vec<
    UserWithRelations,
>)
    ensures
        out@.len() == users@.len(),
        forall|i: int|
            0 <= i < out@.len() ==> (#[trigger] out@[i]).user@ == users@[i]@ && out@[i].points@
                == points_named(points@, point_ids_of(links@, users@[i].id)),
{
    let mut out: Vec<UserWithRelations> = Vec::new();
    let mut i: usize = 0;
    while i < users.len()
        invariant
            i <= users.len(),
            out@.len() == i,
            forall|j: int|
                0 <= j < i ==> (#[trigger] out@[j]).user@ == users@[j]@ && out@[j].points@
                    == points_named(points@, point_ids_of(links@, users@[j].id)),
        decreases users.len() - i,
    {
        let ids = linked_point_ids(links, users[i].id);
        let found = resolve_points(points, &ids);
        out.push(UserWithRelations { user: users[i].duplicate(), points: found });
        i += 1;
    }
    out
}

/// Each point of `points` with the users that `links` give it, as far as
/// `users` has them.
pub fn dump_points(points: &Vec<Point>, links: &Vec<Point2User>, users: &Vec<User>) -> (out: Vec<
    PointWithRelations,
>)
    ensures
        out@.len() == points@.len(),
        forall|i: int|
            0 <= i < out@.len() ==> (#[trigger] out@[i]).point == points@[i] && user_views(
                out@[i].users@,
            ) == users_named(user_views(users@), user_ids_of(links@, points@[i].id)),
{
    let mut out: Vec<PointWithRelations> = Vec::new();
    let mut i: usize = 0;
    while i < points.len()
        invariant
            i <= points.len(),
            out@.len() == i,
            forall|j: int|
                0 <= j < i ==> (#[trigger] out@[j]).point == points@[j] && user_views(
                    out@[j].users@,
                ) == users_named(user_views(users@), user_ids_of(links@, points@[j].id)),
        decreases points.len() - i,
    {
        let ids = linked_user_ids(links, points[i].id);
        let found = resolve_users(users, &ids);
        out.push(PointWithRelations { point: points[i], users: found });
        i += 1;
    }
    out
}

/// The hub of the store with its points and with each user and the points
/// the user is linked to, as far as the store has them.
pub fn dump_hub(store: &LocalStore) -> (out: HubWithRelations)
    ensures
        out.hub.id == store.hub.id,
        out.hub.api_token@ == store.hub.api_token@,
        out.hub.cloud_last_access_event_at == store.hub.cloud_last_access_event_at,
        out.points@ == store.points@,
        out.users@.len() == store.users@.len(),
        forall|i: int|
            0 <= i < out.users@.len() ==> (#[trigger] out.users@[i]).user@ == store.users@[i].user@
                && out.users@[i].points@ == points_named(
                store.points@,
                store.users@[i].point_ids@,
            ),
{
    let mut users: Vec<UserWithRelations> = Vec::new();
    let mut i: usize = 0;
    while i < store.users.len()
        invariant
            i <= store.users.len(),
            users@.len() == i,
            forall|j: int|
                0 <= j < i ==> (#[trigger] users@[j]).user@ == store.users@[j].user@
                    && users@[j].points@ == points_named(
                    store.points@,
                    store.users@[j].point_ids@,
                ),
        decreases store.users.len() - i,
    {
        let found = resolve_points(&store.points, &store.users[i].point_ids);
        users.push(UserWithRelations { user: store.users[i].user.duplicate(), points: found });
        i += 1;
    }
    HubWithRelations {
        hub: Hub {
            id: store.hub.id,
            api_token: store.hub.api_token.clone(),
            cloud_last_access_event_at: store.hub.cloud_last_access_event_at,
        },
        points: store.points.clone(),
        users,
    }
}

} // verus!
