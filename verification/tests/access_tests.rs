use access_hub::access::{access, evaluate, AccessError, Decision, Verdict};
use access_hub::domain::{Access, Hub, Point, Timestamp, User};
use access_hub::roster::UserWithPointIds;
use access_hub::store::LocalStore;

fn user(
    id: i64,
    code: &str,
    from: Option<i64>,
    until: Option<i64>,
    point_ids: Vec<i64>,
) -> UserWithPointIds {
    UserWithPointIds {
        user: User {
            id,
            name: format!("user {}", id),
            code: code.to_string(),
            activate_code_at: from.map(|s| Timestamp::new(s, 0)),
            expire_code_at: until.map(|s| Timestamp::new(s, 0)),
        },
        point_ids,
    }
}

fn store(users: Vec<UserWithPointIds>) -> LocalStore {
    LocalStore {
        hub: Hub { id: 1, api_token: "t".to_string(), cloud_last_access_event_at: None },
        points: vec![Point { id: 10, position: 1 }, Point { id: 20, position: 2 }],
        users,
        events: vec![],
    }
}

const NOW: Timestamp = Timestamp { secs: 1000, nanos: 0 };

#[test]
fn position_below_one_is_invalid() {
    let mut s = store(vec![user(1, "111", None, None, vec![10])]);
    for position in [0i64, -1, i64::MIN] {
        assert_eq!(access("111", position, &mut s, NOW), Err(AccessError::InvalidPosition));
    }
    assert!(s.events.is_empty());
}

#[test]
fn position_without_point_is_unknown() {
    let mut s = store(vec![user(1, "111", None, None, vec![10])]);
    assert_eq!(access("111", 3, &mut s, NOW), Err(AccessError::UnknownPosition));
    assert_eq!(access("111", i64::MAX, &mut s, NOW), Err(AccessError::UnknownPosition));
    assert!(s.events.is_empty());
}

#[test]
fn active_code_is_granted_and_recorded() {
    let mut s = store(vec![user(7, "111", Some(500), Some(2000), vec![20, 10])]);
    assert_eq!(access("111", 1, &mut s, NOW), Ok(Decision::Grant));
    assert_eq!(s.events.len(), 1);
    let e = &s.events[0];
    assert_eq!(e.id, 1);
    assert_eq!(e.at, NOW);
    assert_eq!(e.access, Access::Grant);
    assert_eq!(e.code, "111");
    assert_eq!(e.access_user_id, Some(7));
    assert_eq!(e.access_point_id, 10);
}

#[test]
fn unknown_code_is_denied_and_recorded() {
    let mut s = store(vec![user(7, "111", None, None, vec![10])]);
    assert_eq!(access("999", 1, &mut s, NOW), Ok(Decision::Deny));
    assert_eq!(s.events.len(), 1);
    let e = &s.events[0];
    assert_eq!(e.access, Access::Deny);
    assert_eq!(e.code, "999");
    assert_eq!(e.access_user_id, None);
    assert_eq!(e.access_point_id, 10);
}

#[test]
fn expired_code_is_denied() {
    let mut s = store(vec![user(7, "111", None, Some(1000), vec![10])]);
    assert_eq!(access("111", 1, &mut s, NOW), Ok(Decision::Deny));
    assert_eq!(s.events[0].access_user_id, None);
    let mut s = store(vec![user(7, "111", None, Some(999), vec![10])]);
    assert_eq!(access("111", 1, &mut s, NOW), Ok(Decision::Deny));
}

#[test]
fn code_not_yet_active_is_denied() {
    let mut s = store(vec![user(7, "111", Some(1001), None, vec![10])]);
    assert_eq!(access("111", 1, &mut s, NOW), Ok(Decision::Deny));
    assert_eq!(s.events[0].access_user_id, None);
    assert_eq!(s.events[0].access, Access::Deny);
}

#[test]
fn bounds_of_the_active_window() {
    let mut s = store(vec![user(7, "111", Some(1000), Some(1001), vec![10])]);
    assert_eq!(access("111", 1, &mut s, NOW), Ok(Decision::Grant));
    let later = Timestamp::new(1001, 0);
    assert_eq!(access("111", 1, &mut s, later), Ok(Decision::Deny));
    let a_little_before = Timestamp::new(999, 999_999_999);
    assert_eq!(access("111", 1, &mut s, a_little_before), Ok(Decision::Deny));
    assert_eq!(s.events.len(), 3);
}

#[test]
fn code_at_another_point_is_denied() {
    let mut s = store(vec![user(7, "111", None, None, vec![20])]);
    assert_eq!(access("111", 1, &mut s, NOW), Ok(Decision::Deny));
    assert_eq!(access("111", 2, &mut s, NOW), Ok(Decision::Grant));
    assert_eq!(s.events[1].access_point_id, 20);
}

#[test]
fn event_ids_count_up() {
    let mut s = store(vec![user(7, "111", None, None, vec![10])]);
    access("111", 1, &mut s, NOW).unwrap();
    access("x", 2, &mut s, NOW).unwrap();
    access("111", 1, &mut s, NOW).unwrap();
    let ids: Vec<i64> = s.events.iter().map(|e| e.id).collect();
    assert_eq!(ids, vec![1, 2, 3]);
}

#[test]
fn first_active_holder_is_named() {
    let users = vec![
        user(1, "111", None, Some(10), vec![10]),
        user(2, "111", None, None, vec![10]),
        user(3, "111", None, None, vec![10]),
    ];
    let points = vec![Point { id: 10, position: 1 }];
    let verdict = evaluate(&points, &users, &"111".to_string(), 1, &NOW);
    assert_eq!(
        verdict,
        Ok(Verdict {
            decision: Decision::Grant,
            access_point_id: 10,
            access_user_id: Some(2)
        })
    );
}

#[test]
fn evaluate_changes_nothing_and_reports_errors() {
    let points = vec![Point { id: 10, position: 1 }];
    let users = vec![user(1, "111", None, None, vec![10])];
    let code = "111".to_string();
    assert_eq!(evaluate(&points, &users, &code, 0, &NOW), Err(AccessError::InvalidPosition));
    assert_eq!(evaluate(&points, &users, &code, 2, &NOW), Err(AccessError::UnknownPosition));
    assert_eq!(
        evaluate(&points, &users, &"222".to_string(), 1, &NOW),
        Ok(Verdict { decision: Decision::Deny, access_point_id: 10, access_user_id: None })
    );
}

#[test]
fn decisions_are_reported_in_capitals() {
    assert_eq!(Decision::Grant.label(), "GRANT");
    assert_eq!(Decision::Deny.label(), "DENY");
}
