//! The local store held in memory: the hub record, the points, the users
//! with their links, and the event log.

use crate::domain::{event_views, Access, Event, EventView, Hub, Point, Point2User, Timestamp, User};
use crate::dump::{linked_point_ids, point_ids_of};
use crate::guard::{applies, trips};
use crate::heartbeat::SyncError;
use crate::plan::{effect, run, steps_of, with_code, Mutation, State, Step};
use crate::roster::{
    as_map, contains_point, distinct_ids, entries, find_user, has_distinct_ids, has_id,
    has_known_links, is_known_point, known_point, law_roster_map, lemma_as_map_update, links_known,
    position_of, references_known_points, Entry, Record, UserWithPointIds,
};
use vstd::prelude::*;

verus! {

/// The state of one hub.
#[derive(Debug)]
pub struct LocalStore {
    pub hub: Hub,
    pub points: Vec<Point>,
    pub users: Vec<UserWithPointIds>,
    pub events: Vec<Event>,
}

/// Every position is at least 1, and no two points share a position or an
/// id.
pub open spec fn points_sound(points: Seq<Point>) -> bool {
    &&& forall|i: int| 0 <= i < points.len() ==> (#[trigger] points[i]).position >= 1
    &&& forall|i: int, j: int|
        0 <= i < j < points.len() ==> (#[trigger] points[i]).position != (
        #[trigger] points[j]).position && points[i].id != points[j].id
}

/// No two users share an id, and every link leads to a point of `points`.
pub open spec fn roster_sound(points: Seq<Point>, users: Seq<Entry>) -> bool {
    distinct_ids(users) && references_known_points(points, users)
}

/// Every event names a point of `points`, names a user exactly on a grant,
/// and has a greater id than the events before it.
pub open spec fn events_sound(points: Seq<Point>, events: Seq<EventView>) -> bool {
    &&& forall|i: int|
        0 <= i < events.len() ==> (#[trigger] events[i]).well_formed() && known_point(
            points,
            events[i].access_point_id,
        )
    &&& forall|i: int, j: int|
        0 <= i < j < events.len() ==> (#[trigger] events[i]).id < (#[trigger] events[j]).id
}

/// The links that the step brings lead to points of `points`.
pub open spec fn step_sound(points: Seq<Point>, m: Step) -> bool {
    match m {
        Step::Update { entry } => links_known(points, entry),
        Step::Create { entry } => links_known(points, entry),
        _ => true,
    }
}

/// Decides `points_sound`.
pub fn are_points_sound(points: &Vec<Point>) -> (r: bool)
    ensures
        r == points_sound(points@),
{
    let mut j: usize = 0;
    while j < points.len()
        invariant
            j <= points.len(),
            forall|i: int| 0 <= i < j ==> (#[trigger] points@[i]).position >= 1,
            forall|a: int, b: int|
                0 <= a < b < j ==> (#[trigger] points@[a]).position != (
                #[trigger] points@[b]).position && points@[a].id != points@[b].id,
        decreases points.len() - j,
    {
        if points[j].position < 1 {
            return false;
        }
        let mut i: usize = 0;
        while i < j
            invariant
                i <= j,
                j < points.len(),
                forall|a: int|
                    0 <= a < i ==> (#[trigger] points@[a]).position != points@[j as int].position
                        && points@[a].id != points@[j as int].id,
            decreases j - i,
        {
            if points[i].position == points[j].position || points[i].id == points[j].id {
                return false;
            }
            i += 1;
        }
        j += 1;
    }
    true
}

/// Decides `roster_sound`.
pub fn is_roster_sound(points: &Vec<Point>, users: &Vec<UserWithPointIds>) -> (r: bool)
    ensures
        r == roster_sound(points@, entries(users@)),
{
    if !has_distinct_ids(users) {
        return false;
    }
    let ghost s = entries(users@);
    let mut i: usize = 0;
    while i < users.len()
        invariant
            i <= users.len(),
            s == entries(users@),
            forall|k: int| 0 <= k < i ==> links_known(points@, #[trigger] s[k]),
        decreases users.len() - i,
    {
        if !has_known_links(points, &users[i]) {
            assert(!links_known(points@, s[i as int]));
            return false;
        }
        i += 1;
    }
    true
}

/// Decides `events_sound`.
pub fn are_events_sound(points: &Vec<Point>, events: &Vec<Event>) -> (r: bool)
    ensures
        r == events_sound(points@, event_views(events@)),
{
    let ghost s = event_views(events@);
    let mut i: usize = 0;
    while i < events.len()
        invariant
            i <= events.len(),
            s == event_views(events@),
            forall|k: int|
                0 <= k < i ==> (#[trigger] s[k]).well_formed() && known_point(
                    points@,
                    s[k].access_point_id,
                ),
            forall|a: int, b: int| 0 <= a < b < i ==> (#[trigger] s[a]).id < (#[trigger] s[b]).id,
        decreases events.len() - i,
    {
        let e = &events[i];
        assert(s[i as int] == e@);
        let named = e.access_user_id.is_some();
        let granted = match e.access {
            Access::Grant => true,
            Access::Deny => false,
        };
        if named != granted || !is_known_point(points, e.access_point_id) {
            assert(!(s[i as int].well_formed() && known_point(
                points@,
                s[i as int].access_point_id,
            )));
            return false;
        }
        if i > 0 {
            assert(s[i - 1] == events@[i - 1]@);
            if events[i - 1].id >= e.id {
                assert(!(s[i - 1].id < s[i as int].id));
                return false;
            }
            assert forall|a: int| 0 <= a < i implies (#[trigger] s[a]).id < s[i as int].id by {
                if a < i - 1 {
                    assert(s[a].id < s[i - 1].id);
                }
            }
        }
        i += 1;
    }
    true
}

/// The users of `users` whose id is not among `ids`, in order.
pub fn without_ids(users: &Vec<UserWithPointIds>, ids: &Vec<i64>) -> (kept: Vec<UserWithPointIds>)
    ensures
        as_map(entries(kept@)) == as_map(entries(users@)).remove_keys(ids@.to_set()),
        forall|a: int|
            0 <= a < kept@.len() ==> entries(users@).contains(#[trigger] entries(kept@)[a]),
        distinct_ids(entries(users@)) ==> distinct_ids(entries(kept@)),
{
    let ghost l = entries(users@);
    let ghost gone = ids@.to_set();
    let mut kept: Vec<UserWithPointIds> = Vec::new();
    let mut i: usize = 0;
    assert(as_map(entries(kept@)) =~= as_map(l.take(0)).remove_keys(gone));
    while i < users.len()
        invariant
            i <= users.len(),
            l == entries(users@),
            gone == ids@.to_set(),
            as_map(entries(kept@)) == as_map(l.take(i as int)).remove_keys(gone),
            forall|a: int|
                0 <= a < kept@.len() ==> exists|j: int|
                    0 <= j < i && l[j] == #[trigger] entries(kept@)[a],
            distinct_ids(l) ==> distinct_ids(entries(kept@)),
        decreases users.len() - i,
    {
        let ghost before = entries(kept@);
        let ghost e = l[i as int];
        assert(l.take(i + 1).drop_last() =~= l.take(i as int));
        assert(l.take(i + 1).last() == e);
        assert(e == users@[i as int]@);
        if !contains_point(ids, users[i].user.id) {
            kept.push(users[i].duplicate());
            proof {
                assert(entries(kept@) =~= before.push(e));
                assert(entries(kept@).drop_last() =~= before);
                assert(!gone.contains(e.user.id));
                assert(as_map(entries(kept@)) =~= as_map(l.take(i + 1)).remove_keys(gone));
                let now = entries(kept@);
                assert forall|a: int| 0 <= a < now.len() implies exists|j: int|
                    0 <= j < i + 1 && l[j] == #[trigger] now[a] by {
                    if a < before.len() {
                        assert(now[a] == before[a]);
                        let j = choose|j: int| 0 <= j < i && l[j] == before[a];
                        assert(l[j] == now[a]);
                    } else {
                        assert(l[i as int] == now[a]);
                    }
                }
                if distinct_ids(l) {
                    assert forall|a: int, b: int| 0 <= a < b < now.len() implies (
                    #[trigger] now[a]).user.id != (#[trigger] now[b]).user.id by {
                        if b < before.len() {
                            assert(before[a].user.id != before[b].user.id);
                        } else {
                            let j = choose|j: int| 0 <= j < i && l[j] == before[a];
                            assert(l[j].user.id != l[i as int].user.id);
                        }
                    }
                }
            }
        } else {
            proof {
                assert(gone.contains(e.user.id));
                assert(as_map(entries(kept@)) =~= as_map(l.take(i + 1)).remove_keys(gone));
            }
        }
        i += 1;
    }
    assert(l.take(users.len() as int) =~= l);
    proof {
        assert forall|a: int| 0 <= a < kept@.len() implies l.contains(
            #[trigger] entries(kept@)[a],
        ) by {
            let j = choose|j: int| 0 <= j < i && l[j] == entries(kept@)[a];
            assert(l[j] == entries(kept@)[a]);
        }
    }
    kept
}

/// A copy of `entry` with the code replaced.
pub fn recoded(entry: &UserWithPointIds, code: &String) -> (r: UserWithPointIds)
    ensures
        r@.point_ids == entry@.point_ids,
        r@.user == with_code(entry@.record(), code@).user,
{
    UserWithPointIds {
        user: User {
            id: entry.user.id,
            name: entry.user.name.clone(),
            code: code.clone(),
            activate_code_at: entry.user.activate_code_at,
            expire_code_at: entry.user.expire_code_at,
        },
        point_ids: entry.point_ids.clone(),
    }
}

proof fn lemma_set_code(l: Seq<Entry>, k: int, e: Entry, code: Seq<char>)
    requires
        has_id(l, e.user.id),
        k == position_of(l, e.user.id),
        0 <= k < l.len(),
        e.point_ids == l[k].point_ids,
        e.user == with_code(l[k].record(), code).user,
    ensures
        as_map(l).contains_key(e.user.id),
        as_map(l.update(k, e)) == as_map(l).insert(
            e.user.id,
            with_code(as_map(l)[e.user.id], code),
        ),
{
    law_roster_map(l, e.user.id);
    lemma_as_map_update(l, k, e);
}

/// Replaces the code of the user `user_id`, if there is such a user.
pub fn set_code(users: &mut Vec<UserWithPointIds>, user_id: i64, code: &String)
    ensures
        ({
            let m = as_map(entries(old(users)@));
            as_map(entries(final(users)@)) == if m.contains_key(user_id) {
                m.insert(user_id, with_code(m[user_id], code@))
            } else {
                m
            }
        }),
        final(users)@.len() == old(users)@.len(),
        forall|i: int|
            0 <= i < old(users)@.len() ==> (#[trigger] entries(final(users)@)[i]).user.id
                == entries(old(users)@)[i].user.id && entries(final(users)@)[i].point_ids
                == entries(old(users)@)[i].point_ids,
{
    let ghost l = entries(users@);
    proof {
        law_roster_map(l, user_id);
    }
    match find_user(users, user_id) {
        Some(k) => {
            let entry = recoded(&users[k], code);
            proof {
                assert(l[k as int] == users@[k as int]@);
                lemma_set_code(l, k as int, entry@, code@);
            }
            users.set(k, entry);
            assert(entries(users@) =~= l.update(k as int, entry@));
        },
        None => {},
    }
}

/// Replaces the entry of the user that `entry` names, if there is such a
/// user.
pub fn replace_entry(users: &mut Vec<UserWithPointIds>, entry: &UserWithPointIds)
    ensures
        ({
            let m = as_map(entries(old(users)@));
            as_map(entries(final(users)@)) == if m.contains_key(entry.user.id) {
                m.insert(entry.user.id, entry@.record())
            } else {
                m
            }
        }),
        final(users)@.len() == old(users)@.len(),
        forall|i: int|
            0 <= i < old(users)@.len() ==> (#[trigger] entries(final(users)@)[i]).user.id
                == entries(old(users)@)[i].user.id && (entries(final(users)@)[i] == entries(
                old(users)@,
            )[i] || entries(final(users)@)[i] == entry@),
{
    let ghost l = entries(users@);
    proof {
        law_roster_map(l, entry.user.id);
    }
    match find_user(users, entry.user.id) {
        Some(k) => {
            proof {
                lemma_as_map_update(l, k as int, entry@);
            }
            users.set(k, entry.duplicate());
            assert(entries(users@) =~= l.update(k as int, entry@));
        },
        None => {},
    }
}

/// Adds `entry`, unless a user with its id is already there.
pub fn add_entry(users: &mut Vec<UserWithPointIds>, entry: &UserWithPointIds)
    ensures
        ({
            let m = as_map(entries(old(users)@));
            as_map(entries(final(users)@)) == if m.contains_key(entry.user.id) {
                m
            } else {
                m.insert(entry.user.id, entry@.record())
            }
        }),
        entries(final(users)@) == if has_id(entries(old(users)@), entry.user.id) {
            entries(old(users)@)
        } else {
            entries(old(users)@).push(entry@)
        },
{
    let ghost l = entries(users@);
    proof {
        law_roster_map(l, entry.user.id);
    }
    match find_user(users, entry.user.id) {
        Some(_) => {},
        None => {
            users.push(entry.duplicate());
            assert(entries(users@) =~= l.push(entry@));
            assert(entries(users@).drop_last() =~= l);
        },
    }
}

/// What one step leaves of the roster, as far as the order of its entries
/// goes: no id is repeated that was not repeated before, and every entry
/// has the links of an entry that was there or is the entry that the step
/// brings.
pub open spec fn follows(before: Seq<Entry>, after: Seq<Entry>, m: Step) -> bool {
    &&& distinct_ids(before) ==> distinct_ids(after)
    &&& forall|i: int|
        0 <= i < after.len() ==> (exists|j: int|
            0 <= j < before.len() && (#[trigger] before[j]).point_ids == after[i].point_ids)
            || brings(m, #[trigger] after[i])
}

/// The step updates or creates the entry `e`.
pub open spec fn brings(m: Step, e: Entry) -> bool {
    match m {
        Step::Update { entry } => entry == e,
        Step::Create { entry } => entry == e,
        _ => false,
    }
}

/// A sound roster stays sound under a step that brings sound links.
pub proof fn lemma_stays_sound(points: Seq<Point>, before: Seq<Entry>, after: Seq<Entry>, m: Step)
    requires
        follows(before, after, m),
    ensures
        roster_sound(points, before) && step_sound(points, m) ==> roster_sound(points, after),
{
    if roster_sound(points, before) && step_sound(points, m) {
        assert forall|i: int| 0 <= i < after.len() implies links_known(
            points,
            #[trigger] after[i],
        ) by {
            if !brings(m, after[i]) {
                let j = choose|j: int|
                    0 <= j < before.len() && (#[trigger] before[j]).point_ids
                        == after[i].point_ids;
                assert(links_known(points, before[j]));
                assert forall|k: int| 0 <= k < after[i].point_ids.len() implies known_point(
                    points,
                    #[trigger] after[i].point_ids[k],
                ) by {
                    assert(known_point(points, before[j].point_ids[k]));
                }
            }
        }
    }
}

/// Applies one mutation to the users.  The watermark step leaves them as
/// they are.
pub fn apply_to_users(users: &mut Vec<UserWithPointIds>, m: &Mutation)
    ensures
        forall|w: Option<Timestamp>|
            (#[trigger] effect(
                State { users: as_map(entries(old(users)@)), watermark: w },
                m@,
            )).users == as_map(entries(final(users)@)),
        follows(entries(old(users)@), entries(final(users)@), m@),
{
    let ghost before = entries(users@);
    match m {
        Mutation::Delete { ids } => {
            let kept = without_ids(users, ids);
            *users = kept;
        },
        Mutation::Recycle { user_id, code } => {
            set_code(users, *user_id, code);
        },
        Mutation::Update { entry } => {
            replace_entry(users, entry);
        },
        Mutation::Create { entry } => {
            add_entry(users, entry);
        },
        Mutation::SetWatermark { at } => {},
    }
    proof {
        let after = entries(users@);
        assert forall|i: int| 0 <= i < after.len() implies (exists|j: int|
            0 <= j < before.len() && (#[trigger] before[j]).point_ids == after[i].point_ids)
            || brings(m@, #[trigger] after[i]) by {
            match m {
                Mutation::Delete { ids } => {
                    let j = choose|j: int| 0 <= j < before.len() && before[j] == after[i];
                    assert(before[j].point_ids == after[i].point_ids);
                },
                Mutation::Create { entry } => {
                    if i < before.len() {
                        assert(before[i].point_ids == after[i].point_ids);
                    }
                },
                Mutation::Recycle { user_id, code } => {
                    assert(before[i].point_ids == after[i].point_ids);
                },
                Mutation::Update { entry } => {
                    if after[i] != entry@ {
                        assert(before[i].point_ids == after[i].point_ids);
                    }
                },
                Mutation::SetWatermark { at } => {
                    assert(before[i].point_ids == after[i].point_ids);
                },
            }
        }
        if distinct_ids(before) {
            assert forall|i: int, j: int| 0 <= i < j < after.len() implies (
            #[trigger] after[i]).user.id != (#[trigger] after[j]).user.id by {
                match m {
                    Mutation::Delete { ids } => {},
                    Mutation::Create { entry } => {
                        if j < before.len() {
                            assert(before[i].user.id != before[j].user.id);
                        } else {
                            assert(before[i].user.id != entry.user.id);
                        }
                    },
                    _ => {
                        assert(before[i].user.id != before[j].user.id);
                    },
                }
            }
        }
    }
}

/// Copies of the users, with the same views.
pub fn duplicate_all(users: &Vec<UserWithPointIds>) -> (out: Vec<UserWithPointIds>)
    ensures
        entries(out@) == entries(users@),
{
    let mut out: Vec<UserWithPointIds> = Vec::new();
    let mut i: usize = 0;
    while i < users.len()
        invariant
            i <= users.len(),
            entries(out@) == entries(users@).take(i as int),
        decreases users.len() - i,
    {
        let ghost before = entries(out@);
        out.push(users[i].duplicate());
        proof {
            assert(entries(out@) =~= before.push(users@[i as int]@));
            assert(entries(users@).take(i + 1) =~= entries(users@).take(i as int).push(
                users@[i as int]@,
            ));
        }
        i += 1;
    }
    assert(entries(users@).take(users.len() as int) =~= entries(users@));
    out
}

/// Decides whether no id occurs twice in `ids`.
pub fn has_no_duplicates(ids: &Vec<i64>) -> (r: bool)
    ensures
        r == ids@.no_duplicates(),
{
    let mut j: usize = 0;
    while j < ids.len()
        invariant
            j <= ids.len(),
            forall|a: int, b: int| 0 <= a < j && 0 <= b < j && a != b ==> ids@[a] != ids@[b],
        decreases ids.len() - j,
    {
        let mut i: usize = 0;
        while i < j
            invariant
                i <= j,
                j < ids.len(),
                forall|a: int| 0 <= a < i ==> ids@[a] != ids@[j as int],
            decreases j - i,
        {
            if ids[i] == ids[j] {
                return false;
            }
            i += 1;
        }
        j += 1;
    }
    true
}

/// Decides whether a user of `users` has the id `id`.
pub fn has_user(users: &Vec<UserWithPointIds>, id: i64) -> (r: bool)
    ensures
        r == as_map(entries(users@)).contains_key(id),
{
    proof {
        law_roster_map(entries(users@), id);
    }
    find_user(users, id).is_some()
}

/// Every id of `ids` is the id of a user of `users`.
pub open spec fn all_present(users: Map<i64, Record>, ids: Seq<i64>) -> bool {
    forall|i: int| 0 <= i < ids.len() ==> users.contains_key(#[trigger] ids[i])
}

/// Decides `all_present`.
pub fn has_users(users: &Vec<UserWithPointIds>, ids: &Vec<i64>) -> (r: bool)
    ensures
        r == all_present(as_map(entries(users@)), ids@),
{
    let ghost m = as_map(entries(users@));
    let mut i: usize = 0;
    while i < ids.len()
        invariant
            i <= ids.len(),
            m == as_map(entries(users@)),
            forall|k: int| 0 <= k < i ==> m.contains_key(#[trigger] ids@[k]),
        decreases ids.len() - i,
    {
        if !has_user(users, ids[i]) {
            assert(!m.contains_key(ids@[i as int]));
            return false;
        }
        i += 1;
    }
    true
}

/// Decides whether the mutation finds in `users` what it names.
pub fn finds(users: &Vec<UserWithPointIds>, m: &Mutation) -> (r: bool)
    ensures
        r == applies(as_map(entries(users@)), m@),
{
    match m {
        Mutation::Delete { ids } => has_no_duplicates(ids) && has_users(users, ids),
        Mutation::Recycle { user_id, code } => has_user(users, *user_id),
        Mutation::Update { entry } => has_user(users, entry.user.id),
        Mutation::Create { entry } => !has_user(users, entry.user.id),
        Mutation::SetWatermark { at } => true,
    }
}

/// Every step of `steps` brings only links that lead to points of `points`.
pub open spec fn steps_sound(points: Seq<Point>, steps: Seq<Step>) -> bool {
    forall|k: int| 0 <= k < steps.len() ==> step_sound(points, #[trigger] steps[k])
}

/// The users and the watermark, as the state that the steps run on.
pub open spec fn state_of(users: Seq<UserWithPointIds>, watermark: Option<Timestamp>) -> State {
    State { users: as_map(entries(users)), watermark }
}

/// Applies the mutations in order to a copy of the users, all or none: the
/// first mutation that does not find what it names ends the attempt, and
/// nothing of it is handed back.
pub fn apply_all(
    users: &Vec<UserWithPointIds>,
    watermark: Option<Timestamp>,
    ms: &Vec<Mutation>,
) -> (r: Result<(Vec<UserWithPointIds>, Option<Timestamp>), SyncError>)
    ensures
        match r {
            Ok((out, mark)) => {
                &&& !trips(state_of(users@, watermark), steps_of(ms@))
                &&& state_of(out@, mark) == run(state_of(users@, watermark), steps_of(ms@))
                &&& forall|points: Seq<Point>| #[trigger]
                    roster_sound(points, entries(users@)) && steps_sound(points, steps_of(ms@))
                        ==> roster_sound(points, entries(out@))
            },
            Err(e) => e == SyncError::InconsistentMutation && trips(
                state_of(users@, watermark),
                steps_of(ms@),
            ),
        },
{
    let ghost start = state_of(users@, watermark);
    let ghost all = steps_of(ms@);
    let mut out = duplicate_all(users);
    let mut mark = watermark;
    let mut i: usize = 0;
    while i < ms.len()
        invariant
            i <= ms.len(),
            start == state_of(users@, watermark),
            all == steps_of(ms@),
            state_of(out@, mark) == run(start, all.take(i as int)),
            forall|k: int|
                0 <= k < i ==> applies(run(start, all.take(k)).users, #[trigger] all[k]),
            forall|points: Seq<Point>| #[trigger]
                roster_sound(points, entries(users@)) && steps_sound(points, all) ==> roster_sound(
                    points,
                    entries(out@),
                ),
        decreases ms.len() - i,
    {
        assert(all.take(i + 1).drop_last() =~= all.take(i as int));
        assert(all.take(i + 1).last() == ms@[i as int]@);
        assert(all[i as int] == ms@[i as int]@);
        if !finds(&out, &ms[i]) {
            return Err(SyncError::InconsistentMutation);
        }
        let ghost before = entries(out@);
        apply_to_users(&mut out, &ms[i]);
        match &ms[i] {
            Mutation::SetWatermark { at } => {
                mark = Some(*at);
            },
            _ => {},
        }
        proof {
            assert forall|points: Seq<Point>| #[trigger]
                roster_sound(points, entries(users@)) && steps_sound(
                    points,
                    all,
                ) implies roster_sound(points, entries(out@)) by {
                assert(step_sound(points, all[i as int]));
                lemma_stays_sound(points, before, entries(out@), all[i as int]);
            }
        }
        i += 1;
    }
    assert(all.take(ms.len() as int) =~= all);
    Ok((out, mark))
}

/// Each user of `users` with the ids of the points that `links` give it.
pub fn with_point_ids(users: &Vec<User>, links: &Vec<Point2User>) -> (out: Vec<UserWithPointIds>)
    ensures
        out@.len() == users@.len(),
        forall|i: int|
            0 <= i < out@.len() ==> (#[trigger] out@[i]).user@ == users@[i]@ && out@[i].point_ids@
                == point_ids_of(links@, users@[i].id),
{
    let mut out: Vec<UserWithPointIds> = Vec::new();
    let mut i: usize = 0;
    while i < users.len()
        invariant
            i <= users.len(),
            out@.len() == i,
            forall|j: int|
                0 <= j < i ==> (#[trigger] out@[j]).user@ == users@[j]@ && out@[j].point_ids@
                    == point_ids_of(links@, users@[j].id),
        decreases users.len() - i,
    {
        let point_ids = linked_point_ids(links, users[i].id);
        out.push(UserWithPointIds { user: users[i].duplicate(), point_ids });
        i += 1;
    }
    out
}

impl LocalStore {
    /// The store that holds the given rows, each user with its links.
    pub fn load(
        hub: Hub,
        points: Vec<Point>,
        users: &Vec<User>,
        links: &Vec<Point2User>,
        events: Vec<Event>,
    ) -> (store: LocalStore)
        ensures
            store.hub == hub,
            store.points == points,
            store.events == events,
            store.users@.len() == users@.len(),
            forall|i: int|
                0 <= i < users@.len() ==> (#[trigger] store.users@[i]).user@ == users@[i]@
                    && store.users@[i].point_ids@ == point_ids_of(links@, users@[i].id),
    {
        LocalStore { hub, points, users: with_point_ids(users, links), events }
    }

    /// The id that the next event gets: one more than the last.
    pub open spec fn next_event_id(&self) -> int {
        if self.events@.len() == 0 {
            1
        } else {
            self.events@.last().id + 1
        }
    }

    /// Appends one event to the log, under the next id.
    pub fn record(
        &mut self,
        at: Timestamp,
        access: Access,
        code: String,
        access_user_id: Option<i64>,
        access_point_id: i64,
    ) -> (id: i64)
        requires
            old(self).next_event_id() <= i64::MAX,
        ensures
            id == old(self).next_event_id(),
            final(self).events@.len() == old(self).events@.len() + 1,
            final(self).events@.drop_last() == old(self).events@,
            final(self).events@.last()@ == (EventView {
                id,
                at,
                access,
                code: code@,
                access_user_id,
                access_point_id,
            }),
            final(self).hub == old(self).hub,
            final(self).points == old(self).points,
            final(self).users == old(self).users,
            old(self).well_formed() && known_point(old(self).points@, access_point_id) && ((access
                == Access::Grant) <==> access_user_id is Some) ==> final(self).well_formed(),
    {
        let id: i64 = if self.events.len() == 0 {
            1
        } else {
            self.events[self.events.len() - 1].id + 1
        };
        let ghost before = self.events@;
        self.events.push(Event { id, at, access, code, access_user_id, access_point_id });
        assert(self.events@.drop_last() =~= before);
        proof {
            let was = event_views(before);
            let now = event_views(self.events@);
            if events_sound(self.points@, was) && known_point(self.points@, access_point_id) && ((
            access == Access::Grant) <==> access_user_id is Some) {
                assert forall|i: int| 0 <= i < now.len() implies (#[trigger] now[i]).well_formed()
                    && known_point(self.points@, now[i].access_point_id) by {
                    if i < was.len() {
                        assert(now[i] == was[i]);
                    }
                }
                assert forall|i: int, j: int| 0 <= i < j < now.len() implies (#[trigger] now[i]).id
                    < (#[trigger] now[j]).id by {
                    if j < was.len() {
                        assert(was[i].id < was[j].id);
                    } else if i < was.len() - 1 {
                        assert(was[i].id < was[was.len() - 1].id);
                    } else {
                        assert(now[i] == was[was.len() - 1]);
                    }
                }
            }
        }
        id
    }

    /// What reconciliation reads and changes of the store.
    pub open spec fn state(&self) -> State {
        State {
            users: as_map(entries(self.users@)),
            watermark: self.hub.cloud_last_access_event_at,
        }
    }

    /// The two stores agree in everything that reconciliation leaves alone.
    pub open spec fn same_surroundings(&self, other: &LocalStore) -> bool {
        &&& self.hub.id == other.hub.id
        &&& self.hub.api_token == other.hub.api_token
        &&& self.points == other.points
        &&& self.events == other.events
    }

    /// The store keeps what the data model asks of it.
    pub open spec fn well_formed(&self) -> bool {
        &&& points_sound(self.points@)
        &&& roster_sound(self.points@, entries(self.users@))
        &&& events_sound(self.points@, event_views(self.events@))
    }

    /// Decides `well_formed`.
    pub fn is_well_formed(&self) -> (r: bool)
        ensures
            r == self.well_formed(),
    {
        are_points_sound(&self.points) && is_roster_sound(&self.points, &self.users)
            && are_events_sound(&self.points, &self.events)
    }

    /// Applies one mutation.
    pub fn apply(&mut self, m: &Mutation)
        ensures
            final(self).state() == effect(old(self).state(), m@),
            final(self).same_surroundings(old(self)),
            roster_sound(old(self).points@, entries(old(self).users@)) && step_sound(
                old(self).points@,
                m@,
            ) ==> roster_sound(final(self).points@, entries(final(self).users@)),
    {
        let ghost before = entries(self.users@);
        apply_to_users(&mut self.users, m);
        match m {
            Mutation::SetWatermark { at } => {
                self.hub.cloud_last_access_event_at = Some(*at);
            },
            _ => {},
        }
        proof {
            lemma_stays_sound(self.points@, before, entries(self.users@), m@);
        }
    }
}

} // verus!
