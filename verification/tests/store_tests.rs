use access_hub::access::{access, active_code, Decision};
use access_hub::domain::{Access, Event, Hub, Point, Timestamp, User};
use access_hub::dump::dump_hub;
use access_hub::heartbeat::{heartbeat, CloudReply, CloudRoster, SyncError};
use access_hub::index::RosterIndex;
use access_hub::json_naive_date_time::{from_formatted, from_parsed, TimeError};
use access_hub::plan::Mutation;
use access_hub::recycle::is_claimed;
use access_hub::roster::{find_user, has_distinct_ids, UserWithPointIds};
use access_hub::store::{
    apply_all, are_events_sound, are_points_sound, finds, has_no_duplicates, is_roster_sound,
    LocalStore,
};

fn user(id: i64, code: &str, point_ids: Vec<i64>) -> UserWithPointIds {
    UserWithPointIds {
        user: User {
            id,
            name: format!("user {}", id),
            code: code.to_string(),
            activate_code_at: None,
            expire_code_at: Some(Timestamp::new(5000, 0)),
        },
        point_ids,
    }
}

fn event(id: i64, access: Access, user: Option<i64>, point: i64) -> Event {
    Event {
        id,
        at: Timestamp::new(id, 0),
        access,
        code: "c".to_string(),
        access_user_id: user,
        access_point_id: point,
    }
}

fn points() -> Vec<Point> {
    vec![Point { id: 10, position: 1 }, Point { id: 20, position: 2 }]
}

fn store(users: Vec<UserWithPointIds>, events: Vec<Event>) -> LocalStore {
    LocalStore {
        hub: Hub { id: 1, api_token: "t".to_string(), cloud_last_access_event_at: None },
        points: points(),
        users,
        events,
    }
}

#[test]
fn sound_store_is_recognised() {
    let s = store(
        vec![user(1, "111", vec![10]), user(2, "222", vec![10, 20])],
        vec![event(1, Access::Grant, Some(1), 10), event(4, Access::Deny, None, 20)],
    );
    assert!(s.is_well_formed());
    assert!(store(vec![], vec![]).is_well_formed());
}

#[test]
fn unsound_points_are_recognised() {
    assert!(are_points_sound(&points()));
    assert!(!are_points_sound(&vec![Point { id: 10, position: 0 }]));
    assert!(!are_points_sound(&vec![Point { id: 10, position: 1 }, Point { id: 11, position: 1 }]));
    assert!(!are_points_sound(&vec![Point { id: 10, position: 1 }, Point { id: 10, position: 2 }]));
}

#[test]
fn unsound_rosters_are_recognised() {
    assert!(is_roster_sound(&points(), &vec![user(1, "111", vec![10, 20])]));
    assert!(!is_roster_sound(&points(), &vec![user(1, "111", vec![10, 30])]));
    assert!(!is_roster_sound(&points(), &vec![user(1, "111", vec![10]), user(1, "222", vec![10])]));
}

#[test]
fn unsound_events_are_recognised() {
    let p = points();
    assert!(are_events_sound(&p, &vec![event(1, Access::Grant, Some(1), 10)]));
    assert!(!are_events_sound(&p, &vec![event(1, Access::Grant, None, 10)]));
    assert!(!are_events_sound(&p, &vec![event(1, Access::Deny, Some(1), 10)]));
    assert!(!are_events_sound(&p, &vec![event(1, Access::Deny, None, 30)]));
    assert!(!are_events_sound(
        &p,
        &vec![event(2, Access::Deny, None, 10), event(2, Access::Deny, None, 10)]
    ));
    assert!(!are_events_sound(
        &p,
        &vec![event(3, Access::Deny, None, 10), event(2, Access::Deny, None, 10)]
    ));
}

#[test]
fn operations_keep_the_store_sound() {
    let mut s = store(vec![user(1, "111", vec![10]), user(2, "222", vec![20])], vec![]);
    assert_eq!(access("111", 1, &mut s, Timestamp::new(7, 0)), Ok(Decision::Grant));
    assert_eq!(access("111", 2, &mut s, Timestamp::new(8, 0)), Ok(Decision::Deny));
    assert!(s.is_well_formed());
    let reply = CloudReply::Answered {
        status: 200,
        roster: CloudRoster {
            hub_id: 1,
            new_watermark: Timestamp::new(9, 0),
            users: vec![user(2, "111", vec![10, 10]), user(3, "222", vec![20]), user(1, "333", vec![20])],
        },
    };
    assert_eq!(heartbeat(&mut s, reply), Ok(()));
    assert!(s.is_well_formed());
    assert_eq!(s.events.len(), 2);
}

#[test]
fn apply_ignores_what_it_cannot_find() {
    let mut s = store(vec![user(1, "111", vec![10])], vec![]);
    s.apply(&Mutation::Update { entry: user(2, "222", vec![10]) });
    s.apply(&Mutation::Recycle { user_id: 3, code: "x".to_string() });
    s.apply(&Mutation::Create { entry: user(1, "999", vec![20]) });
    s.apply(&Mutation::Delete { ids: vec![5] });
    assert_eq!(s.users.len(), 1);
    assert_eq!(s.users[0].user.code, "111");
    assert_eq!(s.users[0].point_ids, vec![10]);
    s.apply(&Mutation::Recycle { user_id: 1, code: "111-".to_string() });
    assert_eq!(s.users[0].user.code, "111-");
    assert_eq!(s.users[0].user.name, "user 1");
    s.apply(&Mutation::Delete { ids: vec![1, 1] });
    assert!(s.users.is_empty());
    s.apply(&Mutation::SetWatermark { at: Timestamp::new(3, 4) });
    assert_eq!(s.hub.cloud_last_access_event_at, Some(Timestamp::new(3, 4)));
}

#[test]
fn index_finds_first_positions() {
    let users = vec![user(5, "a", vec![]), user(3, "b", vec![]), user(5, "c", vec![])];
    let index = RosterIndex::build(&users);
    for id in [5i64, 3, 4, 0, -1] {
        assert_eq!(index.find(&users, id), find_user(&users, id));
    }
    assert_eq!(index.find(&users, 5), Some(0));
    assert_eq!(index.find(&users, 3), Some(1));
    assert_eq!(index.find(&users, 4), None);
    assert!(!has_distinct_ids(&users));
    assert!(has_distinct_ids(&users[..2].to_vec()));
}

#[test]
fn claimed_codes_are_those_newly_taken() {
    let local = vec![user(1, "111", vec![10]), user(2, "222", vec![10])];
    let upd = vec![user(1, "222", vec![10]), user(2, "222", vec![20]), user(9, "999", vec![10])];
    let index = RosterIndex::build(&local);
    assert!(is_claimed(&local, &index, &upd, &"222".to_string()));
    assert!(!is_claimed(&local, &index, &upd, &"111".to_string()));
    assert!(!is_claimed(&local, &index, &upd, &"999".to_string()));
}

#[test]
fn active_code_names_holder_and_point() {
    let users = vec![user(1, "111", vec![20]), user(2, "111", vec![10])];
    let now = Timestamp::new(100, 0);
    let found = active_code(&points(), &users, &"111".to_string(), 1, &now).unwrap();
    assert_eq!(found.access_point_id, 10);
    assert_eq!(found.position, 1);
    assert_eq!(found.code, "111");
    assert_eq!(found.access_user_id, 2);
    assert_eq!(found.activate_code_at, None);
    assert_eq!(found.expire_code_at, Some(Timestamp::new(5000, 0)));
    assert!(active_code(&points(), &users, &"111".to_string(), 3, &now).is_none());
    assert!(active_code(&points(), &users, &"222".to_string(), 1, &now).is_none());
    assert!(active_code(&points(), &users, &"111".to_string(), 1, &Timestamp::new(5000, 0)).is_none());
}

#[test]
fn hub_is_listed_with_points_and_users() {
    let s = store(vec![user(1, "111", vec![20, 99, 10]), user(2, "222", vec![])], vec![]);
    let out = dump_hub(&s);
    assert_eq!(out.hub.id, 1);
    assert_eq!(out.hub.api_token, "t");
    assert_eq!(out.points, points());
    assert_eq!(out.users.len(), 2);
    assert_eq!(out.users[0].user.id, 1);
    assert_eq!(
        out.users[0].points,
        vec![Point { id: 20, position: 2 }, Point { id: 10, position: 1 }]
    );
    assert!(out.users[1].points.is_empty());
}

#[test]
fn outcomes_of_formatting_and_parsing() {
    assert_eq!(from_formatted(Some("text".to_string())), Ok("text".to_string()));
    assert_eq!(from_formatted(None), Err(TimeError::OutOfRange));
    assert_eq!(from_parsed(Ok(Timestamp::new(12, 345))), Ok(Timestamp::new(12, 0)));
    let failure = "?".parse::<chrono::DateTime<chrono::Utc>>().unwrap_err();
    assert_eq!(from_parsed(Err(failure)), Err(TimeError::Malformed));
}

#[test]
fn user_that_stands_twice_trips_the_guard() {
    let before = vec![user(1, "111", vec![10]), user(2, "222", vec![10]), user(2, "333", vec![20])];
    let mut s = store(before.clone(), vec![]);
    let reply = CloudReply::Answered {
        status: 200,
        roster: CloudRoster {
            hub_id: 1,
            new_watermark: Timestamp::new(9, 0),
            users: vec![user(1, "999", vec![10])],
        },
    };
    assert_eq!(heartbeat(&mut s, reply), Err(SyncError::InconsistentMutation));
    assert_eq!(s.users, before);
    assert_eq!(s.hub.cloud_last_access_event_at, None);
}

#[test]
fn user_that_stands_twice_and_stays_is_updated() {
    let mut s = store(vec![user(2, "222", vec![10]), user(2, "333", vec![20])], vec![]);
    let reply = CloudReply::Answered {
        status: 200,
        roster: CloudRoster {
            hub_id: 1,
            new_watermark: Timestamp::new(9, 0),
            users: vec![user(2, "444", vec![20])],
        },
    };
    assert_eq!(heartbeat(&mut s, reply), Ok(()));
    assert_eq!(s.users[0], user(2, "444", vec![20]));
}

#[test]
fn mutations_are_applied_all_or_none() {
    let users = vec![user(1, "111", vec![10]), user(2, "222", vec![10])];
    let good = vec![
        Mutation::Delete { ids: vec![2] },
        Mutation::Recycle { user_id: 1, code: "111-".to_string() },
        Mutation::Create { entry: user(3, "111", vec![20]) },
        Mutation::SetWatermark { at: Timestamp::new(4, 0) },
    ];
    let (out, mark) = apply_all(&users, None, &good).unwrap();
    assert_eq!(mark, Some(Timestamp::new(4, 0)));
    let got: Vec<(i64, String)> = out.iter().map(|u| (u.user.id, u.user.code.clone())).collect();
    assert_eq!(got, vec![(1, "111-".to_string()), (3, "111".to_string())]);

    let late_fault = vec![
        Mutation::Delete { ids: vec![2] },
        Mutation::Update { entry: user(2, "999", vec![10]) },
    ];
    assert_eq!(apply_all(&users, None, &late_fault).err(), Some(SyncError::InconsistentMutation));
    assert_eq!(apply_all(&users, None, &vec![]).unwrap().0, users);
}

#[test]
fn guard_for_each_kind_of_mutation() {
    let users = vec![user(1, "111", vec![10]), user(2, "222", vec![10])];
    assert!(finds(&users, &Mutation::Delete { ids: vec![2, 1] }));
    assert!(finds(&users, &Mutation::Delete { ids: vec![] }));
    assert!(!finds(&users, &Mutation::Delete { ids: vec![2, 2] }));
    assert!(!finds(&users, &Mutation::Delete { ids: vec![3] }));
    assert!(finds(&users, &Mutation::Recycle { user_id: 1, code: "x".to_string() }));
    assert!(!finds(&users, &Mutation::Recycle { user_id: 3, code: "x".to_string() }));
    assert!(finds(&users, &Mutation::Update { entry: user(2, "x", vec![]) }));
    assert!(!finds(&users, &Mutation::Update { entry: user(3, "x", vec![]) }));
    assert!(finds(&users, &Mutation::Create { entry: user(3, "x", vec![]) }));
    assert!(!finds(&users, &Mutation::Create { entry: user(2, "x", vec![]) }));
    assert!(finds(&users, &Mutation::SetWatermark { at: Timestamp::new(0, 0) }));
    assert!(has_no_duplicates(&vec![3, 1, 2]));
    assert!(!has_no_duplicates(&vec![3, 1, 3]));
}
