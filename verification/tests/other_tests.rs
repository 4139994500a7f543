use access_hub::domain::{Access, Event, Hub, Point, Point2User, Timestamp, User};
use access_hub::dump::{dump_points, dump_users};
use access_hub::mock::{deny, find_event, grant, swap, MockError};
use access_hub::request::{pending_events, request};
use access_hub::roster::UserWithPointIds;
use access_hub::statements::Statement;
use access_hub::store::LocalStore;
use access_hub::token::{token, TokenOutcome};

fn user(id: i64, code: &str) -> User {
    User {
        id,
        name: format!("user {}", id),
        code: code.to_string(),
        activate_code_at: None,
        expire_code_at: None,
    }
}

fn link(point: i64, user: i64) -> Point2User {
    Point2User { access_point_id: point, access_user_id: user }
}

fn event(id: i64, at: i64) -> Event {
    Event {
        id,
        at: Timestamp::new(at, 0),
        access: Access::Deny,
        code: format!("c{}", id),
        access_user_id: None,
        access_point_id: 10,
    }
}

fn store() -> LocalStore {
    LocalStore::load(
        Hub { id: 1, api_token: "secret".to_string(), cloud_last_access_event_at: None },
        vec![Point { id: 10, position: 1 }, Point { id: 20, position: 2 }],
        &vec![user(1, "111"), user(2, "222")],
        &vec![link(10, 1), link(20, 2), link(20, 1)],
        vec![],
    )
}

#[test]
fn load_groups_links_by_user() {
    let s = store();
    let got: Vec<(i64, Vec<i64>)> =
        s.users.iter().map(|u: &UserWithPointIds| (u.user.id, u.point_ids.clone())).collect();
    assert_eq!(got, vec![(1, vec![10, 20]), (2, vec![20])]);
}

#[test]
fn users_are_listed_with_their_points() {
    let users = vec![user(1, "111"), user(2, "222"), user(3, "333")];
    let links = vec![link(20, 1), link(10, 1), link(99, 2), link(10, 2)];
    let points = vec![Point { id: 10, position: 1 }, Point { id: 20, position: 2 }];
    let out = dump_users(&users, &links, &points);
    assert_eq!(out.len(), 3);
    assert_eq!(out[0].user.id, 1);
    assert_eq!(out[0].points, vec![Point { id: 20, position: 2 }, Point { id: 10, position: 1 }]);
    assert_eq!(out[1].points, vec![Point { id: 10, position: 1 }]);
    assert!(out[2].points.is_empty());
}

#[test]
fn points_are_listed_with_their_users() {
    let users = vec![user(1, "111"), user(2, "222")];
    let links = vec![link(10, 2), link(10, 1), link(20, 7), link(20, 2)];
    let points = vec![Point { id: 10, position: 1 }, Point { id: 20, position: 2 }, Point { id: 30, position: 3 }];
    let out = dump_points(&points, &links, &users);
    let got: Vec<(i64, Vec<i64>)> =
        out.iter().map(|p| (p.point.id, p.users.iter().map(|u| u.id).collect())).collect();
    assert_eq!(got, vec![(10, vec![2, 1]), (20, vec![2]), (30, vec![])]);
}

#[test]
fn events_are_due_between_watermark_and_margin() {
    let events = vec![event(1, 100), event(2, 101), event(3, 150), event(4, 194), event(5, 195)];
    let now = Timestamp::new(200, 0);
    let sent = pending_events(&events, &Some(Timestamp::new(100, 0)), &now);
    let ids: Vec<i64> = sent.iter().map(|e| e.id).collect();
    assert_eq!(ids, vec![4, 3, 2]);
    let sent = pending_events(&events, &None, &now);
    assert!(sent.is_empty());
    let sent = pending_events(&events, &Some(Timestamp::new(0, 0)), &Timestamp::new(i64::MIN + 4, 0));
    assert!(sent.is_empty());
}

#[test]
fn events_are_sent_newest_first() {
    let events = vec![event(1, 30), event(2, 10), event(3, 30), event(4, 20), event(5, 40)];
    let sent = pending_events(&events, &Some(Timestamp::new(0, 0)), &Timestamp::new(1000, 0));
    let ids: Vec<i64> = sent.iter().map(|e| e.id).collect();
    assert_eq!(ids, vec![5, 1, 3, 4, 2]);
}

#[test]
fn margin_counts_nanoseconds() {
    let mut e = event(1, 195);
    e.at = Timestamp::new(194, 999_999_999);
    let now = Timestamp::new(200, 0);
    assert_eq!(pending_events(&vec![e.clone()], &Some(Timestamp::new(0, 0)), &now).len(), 1);
    e.at = Timestamp::new(195, 0);
    assert_eq!(pending_events(&vec![e], &Some(Timestamp::new(0, 0)), &now).len(), 0);
}

#[test]
fn request_carries_hub_and_watermark() {
    let mut s = store();
    s.hub.cloud_last_access_event_at = Some(Timestamp::new(5, 0));
    s.events = vec![event(1, 6), event(2, 7)];
    let r = request(&s, &Timestamp::new(100, 0));
    assert_eq!(r.access_hub.id, 1);
    assert_eq!(r.access_hub.cloud_last_access_event_at, Some(Timestamp::new(5, 0)));
    let ids: Vec<i64> = r.access_hub.access_events.iter().map(|e| e.id).collect();
    assert_eq!(ids, vec![2, 1]);
}

#[test]
fn grant_by_hand_records_the_users_code() {
    let mut s = store();
    let now = Timestamp::new(9, 0);
    assert_eq!(grant(2, 10, &mut s, now), Ok(1));
    let e = &s.events[0];
    assert_eq!((e.id, e.access, e.code.as_str()), (1, Access::Grant, "222"));
    assert_eq!((e.access_user_id, e.access_point_id, e.at), (Some(2), 10, now));
    assert_eq!(grant(5, 10, &mut s, now), Err(MockError::UserNotFound));
    assert_eq!(s.events.len(), 1);
}

#[test]
fn deny_by_hand_records_the_code() {
    let mut s = store();
    let now = Timestamp::new(9, 0);
    assert_eq!(deny(20, "0000".to_string(), &mut s, now), 1);
    assert_eq!(deny(20, "0001".to_string(), &mut s, now), 2);
    let e = &s.events[1];
    assert_eq!((e.id, e.access, e.code.as_str()), (2, Access::Deny, "0001"));
    assert_eq!((e.access_user_id, e.access_point_id), (None, 20));
    assert_eq!(find_event(&s.events, 2), Ok(1));
    assert_eq!(find_event(&s.events, 3), Err(MockError::EventNotFound));
}

#[test]
fn swap_sets_the_first_code_aside() {
    let out = swap(&vec![user(1, "111"), user(2, "222")]).unwrap();
    let got: Vec<(i64, String)> = out
        .iter()
        .map(|s| match s {
            Statement::SetCode { user_id, code } => (*user_id, code.clone()),
            other => panic!("unexpected statement {:?}", other),
        })
        .collect();
    assert_eq!(
        got,
        vec![(1, "111-".to_string()), (2, "111".to_string()), (1, "222".to_string())]
    );
    for s in out.iter() {
        assert_eq!(s.expected_rows(), Some(1));
    }
}

#[test]
fn swap_needs_two_users() {
    assert_eq!(swap(&vec![]).err(), Some(MockError::NoUsersToSwap));
    assert_eq!(swap(&vec![user(1, "111")]).err(), Some(MockError::NoUsersToSwap));
    assert_eq!(
        swap(&vec![user(1, "1"), user(2, "2"), user(3, "3")]).err(),
        Some(MockError::NoUsersToSwap)
    );
}

#[test]
fn token_is_shown_or_replaced() {
    let mut hub = Hub { id: 1, api_token: "old".to_string(), cloud_last_access_event_at: None };
    match token("", &mut hub) {
        TokenOutcome::Shown { token } => assert_eq!(token, "old"),
        TokenOutcome::Replaced => panic!("nothing was to be set"),
    }
    assert_eq!(hub.api_token, "old");
    assert!(matches!(token("new", &mut hub), TokenOutcome::Replaced));
    assert_eq!(hub.api_token, "new");
    assert_eq!(hub.id, 1);
}

#[test]
fn instants_are_ordered_by_seconds_then_nanoseconds() {
    let a = Timestamp::new(1, 999_999_999);
    let b = Timestamp::new(2, 0);
    assert!(a.is_before(&b));
    assert!(!b.is_before(&a));
    assert!(!a.is_before(&a));
    assert!(a.is_at_or_before(&a));
    assert!(Timestamp::new(-1, 5).is_before(&Timestamp::new(-1, 6)));
    assert_eq!(b.minus_seconds(5), Some(Timestamp::new(-3, 0)));
    assert_eq!(Timestamp::new(i64::MIN, 7).minus_seconds(1), None);
    assert_eq!(Timestamp::new(i64::MAX, 7).minus_seconds(-1), None);
}

#[test]
fn outcomes_are_stored_as_words() {
    assert_eq!(Access::Grant.label(), "grant");
    assert_eq!(Access::Deny.label(), "deny");
    assert_eq!(Access::from_label("grant"), Some(Access::Grant));
    assert_eq!(Access::from_label("deny"), Some(Access::Deny));
    assert_eq!(Access::from_label("GRANT"), None);
    assert_eq!(Access::from_label(""), None);
}
