use access_hub::domain::{Hub, Point, Timestamp, User};
use access_hub::heartbeat::{
    accept_reply, heartbeat, reconcile, validate, CloudReply, CloudRoster, SyncError,
};
use access_hub::plan::{plan, Mutation, SyncPlan};
use access_hub::recycle::make_placeholder;
use access_hub::roster::{distinct_points, same_point_set, UserWithPointIds};
use access_hub::statements::{after_statement, Progress, Statement};
use access_hub::store::LocalStore;

fn user(id: i64, name: &str, code: &str, point_ids: Vec<i64>) -> UserWithPointIds {
    UserWithPointIds {
        user: User {
            id,
            name: name.to_string(),
            code: code.to_string(),
            activate_code_at: None,
            expire_code_at: None,
        },
        point_ids,
    }
}

fn store(users: Vec<UserWithPointIds>, watermark: Option<Timestamp>) -> LocalStore {
    LocalStore {
        hub: Hub { id: 1, api_token: "t".to_string(), cloud_last_access_event_at: watermark },
        points: vec![Point { id: 10, position: 1 }, Point { id: 20, position: 2 }],
        users,
        events: vec![],
    }
}

fn roster(users: Vec<UserWithPointIds>, watermark: i64) -> CloudRoster {
    CloudRoster { hub_id: 1, new_watermark: Timestamp::new(watermark, 0), users }
}

fn answered(users: Vec<UserWithPointIds>, watermark: i64) -> CloudReply {
    CloudReply::Answered { status: 200, roster: roster(users, watermark) }
}

fn summary(users: &Vec<UserWithPointIds>) -> Vec<(i64, String, String, Vec<i64>)> {
    let mut out: Vec<(i64, String, String, Vec<i64>)> = users
        .iter()
        .map(|u| {
            let mut points = u.point_ids.clone();
            points.sort();
            points.dedup();
            (u.user.id, u.user.name.clone(), u.user.code.clone(), points)
        })
        .collect();
    out.sort();
    out
}

fn codes_are_distinct(users: &Vec<UserWithPointIds>) -> bool {
    let mut codes: Vec<&String> = users.iter().map(|u| &u.user.code).collect();
    codes.sort();
    let n = codes.len();
    codes.dedup();
    codes.len() == n
}

fn describe(m: &Mutation) -> String {
    match m {
        Mutation::Delete { ids } => format!("delete {:?}", ids),
        Mutation::Recycle { user_id, code } => format!("recycle {} {}", user_id, code),
        Mutation::Update { entry } => format!("update {} {}", entry.user.id, entry.user.code),
        Mutation::Create { entry } => format!("create {} {}", entry.user.id, entry.user.code),
        Mutation::SetWatermark { at } => format!("watermark {}", at.secs),
    }
}

fn described(p: &SyncPlan) -> Vec<String> {
    p.mutations().iter().map(describe).collect()
}

#[test]
fn roster_in_place_gives_no_mutation() {
    let local = vec![user(1, "a", "111", vec![10, 20]), user(2, "b", "222", vec![20])];
    let cloud = vec![user(2, "b", "222", vec![20]), user(1, "a", "111", vec![20, 10, 10])];
    let at = Timestamp::new(50, 0);
    let p = plan(&Some(at), &local, &cloud, at);
    assert!(p.delete_ids.is_empty());
    assert!(p.recycle.is_empty());
    assert!(p.update.is_empty());
    assert!(p.create.is_empty());
    assert_eq!(p.watermark, None);
    assert!(p.mutations().is_empty());
}

#[test]
fn watermark_moves_only_when_it_differs() {
    let local = vec![user(1, "a", "111", vec![10])];
    let cloud = vec![user(1, "a", "111", vec![10])];
    let p = plan(&Some(Timestamp::new(50, 0)), &local, &cloud, Timestamp::new(51, 0));
    assert_eq!(described(&p), vec!["watermark 51".to_string()]);
    let p = plan(&None, &local, &cloud, Timestamp::new(51, 0));
    assert_eq!(p.watermark, Some(Timestamp::new(51, 0)));
    let p = plan(&Some(Timestamp::new(51, 1)), &local, &cloud, Timestamp::new(51, 0));
    assert_eq!(p.watermark, Some(Timestamp::new(51, 0)));
    let p = plan(&Some(Timestamp::new(51, 0)), &local, &cloud, Timestamp::new(51, 0));
    assert_eq!(p.watermark, None);
}

#[test]
fn second_run_leaves_the_state_of_the_first() {
    let mut s = store(
        vec![user(1, "a", "111", vec![10]), user(2, "b", "222", vec![20]), user(3, "c", "3", vec![10])],
        None,
    );
    let cloud = || vec![user(2, "b", "111", vec![10, 20]), user(4, "d", "222", vec![10])];
    assert_eq!(heartbeat(&mut s, answered(cloud(), 77)), Ok(()));
    let after_first = summary(&s.users);
    let watermark_first = s.hub.cloud_last_access_event_at;
    assert_eq!(after_first, summary(&cloud()));
    assert_eq!(watermark_first, Some(Timestamp::new(77, 0)));
    assert_eq!(heartbeat(&mut s, answered(cloud(), 77)), Ok(()));
    assert_eq!(summary(&s.users), after_first);
    assert_eq!(s.hub.cloud_last_access_event_at, watermark_first);
    let p = plan(&s.hub.cloud_last_access_event_at, &s.users, &cloud(), Timestamp::new(77, 0));
    assert!(p.mutations().is_empty());
}

#[test]
fn code_swap_recycles_before_it_updates() {
    let local = vec![user(1, "A", "111", vec![10]), user(2, "B", "222", vec![10])];
    let cloud = vec![user(1, "A", "222", vec![10]), user(2, "B", "111", vec![10])];
    let at = Timestamp::new(5, 0);
    let p = plan(&Some(at), &local, &cloud, at);
    assert_eq!(
        described(&p),
        vec![
            "recycle 1 111-".to_string(),
            "recycle 2 222-".to_string(),
            "update 1 222".to_string(),
            "update 2 111".to_string(),
        ]
    );
    let mut s = store(local, Some(at));
    for m in p.mutations().iter() {
        s.apply(m);
        assert!(codes_are_distinct(&s.users), "after {}", describe(m));
    }
    assert_eq!(summary(&s.users), summary(&cloud));
}

#[test]
fn code_passed_on_is_recycled_at_its_holder_only() {
    let local = vec![user(1, "A", "111", vec![10]), user(2, "B", "222", vec![10])];
    let cloud = vec![user(2, "B", "111", vec![10]), user(1, "A", "333", vec![10])];
    let at = Timestamp::new(5, 0);
    let p = plan(&Some(at), &local, &cloud, at);
    assert_eq!(
        described(&p),
        vec![
            "recycle 1 111-".to_string(),
            "update 2 111".to_string(),
            "update 1 333".to_string(),
        ]
    );
    let mut s = store(local, Some(at));
    for m in p.mutations().iter() {
        s.apply(m);
        assert!(codes_are_distinct(&s.users));
    }
}

#[test]
fn placeholder_avoids_codes_in_use() {
    let local = vec![
        user(1, "A", "111", vec![10]),
        user(2, "B", "222", vec![10]),
        user(3, "C", "111-", vec![10]),
    ];
    let cloud = vec![
        user(1, "A", "222", vec![10]),
        user(2, "B", "111", vec![10]),
        user(3, "C", "111-", vec![10]),
        user(4, "D", "222-", vec![10]),
        user(5, "E", "222--", vec![10]),
    ];
    let at = Timestamp::new(5, 0);
    let p = plan(&Some(at), &local, &cloud, at);
    let made: Vec<(i64, String)> = p.recycle.iter().map(|r| (r.user_id, r.code.clone())).collect();
    assert_eq!(made, vec![(1, "111--".to_string()), (2, "222---".to_string())]);
    assert_eq!(make_placeholder(&local, &cloud, &vec![], &"9".to_string()), "9-");
    assert_eq!(make_placeholder(&local, &cloud, &p.recycle, &"111".to_string()), "111---");
    let mut s = store(local, Some(at));
    for m in p.mutations().iter() {
        s.apply(m);
        assert!(codes_are_distinct(&s.users));
    }
    assert_eq!(summary(&s.users), summary(&cloud));
}

#[test]
fn deleted_user_is_created_afresh() {
    let mut s = store(
        vec![user(1, "A", "111", vec![10, 20]), user(2, "B", "222", vec![10])],
        None,
    );
    assert_eq!(heartbeat(&mut s, answered(vec![user(2, "B", "222", vec![10])], 1)), Ok(()));
    assert_eq!(summary(&s.users), summary(&vec![user(2, "B", "222", vec![10])]));
    assert!(s.users.iter().all(|u| u.user.id != 1));
    let back = vec![user(2, "B", "222", vec![10]), user(1, "A2", "333", vec![20])];
    let p = plan(&s.hub.cloud_last_access_event_at, &s.users, &back, Timestamp::new(2, 0));
    assert_eq!(described(&p), vec!["create 1 333".to_string(), "watermark 2".to_string()]);
    assert_eq!(heartbeat(&mut s, answered(back, 2)), Ok(()));
    let again = s.users.iter().find(|u| u.user.id == 1).unwrap();
    assert_eq!(again.user.name, "A2");
    assert_eq!(again.user.code, "333");
    assert_eq!(again.point_ids, vec![20]);
}

#[test]
fn unknown_point_aborts_and_changes_nothing() {
    let before = vec![user(1, "A", "111", vec![10]), user(2, "B", "222", vec![20])];
    let mut s = store(before.clone(), Some(Timestamp::new(3, 0)));
    let cloud = vec![user(1, "A", "999", vec![10]), user(3, "C", "333", vec![10, 30])];
    assert_eq!(heartbeat(&mut s, answered(cloud, 9)), Err(SyncError::UnknownPointReference));
    assert_eq!(format!("{:?}", s.users), format!("{:?}", before));
    assert_eq!(s.hub.cloud_last_access_event_at, Some(Timestamp::new(3, 0)));
}

#[test]
fn validation_reports_each_fault() {
    let points = vec![Point { id: 10, position: 1 }];
    let ok = roster(vec![user(1, "A", "111", vec![10])], 0);
    assert_eq!(validate(&points, &ok), Ok(()));
    let empty = roster(vec![], 0);
    assert_eq!(validate(&points, &empty), Ok(()));
    let unknown = roster(vec![user(1, "A", "111", vec![10, 11])], 0);
    assert_eq!(validate(&points, &unknown), Err(SyncError::UnknownPointReference));
    let no_code = roster(vec![user(1, "A", "", vec![10])], 0);
    assert_eq!(validate(&points, &no_code), Err(SyncError::InvalidCloudUser));
    let no_point = roster(vec![user(1, "A", "111", vec![])], 0);
    assert_eq!(validate(&points, &no_point), Err(SyncError::InvalidCloudUser));
    let twice = roster(vec![user(1, "A", "111", vec![10]), user(1, "B", "222", vec![10])], 0);
    assert_eq!(validate(&points, &twice), Err(SyncError::DuplicateCloudUser));
}

#[test]
fn validation_reports_faults_in_a_fixed_order() {
    let points = vec![Point { id: 10, position: 1 }];
    let all = roster(
        vec![user(1, "A", "", vec![10]), user(1, "B", "222", vec![99])],
        0,
    );
    assert_eq!(validate(&points, &all), Err(SyncError::UnknownPointReference));
    let two = roster(vec![user(1, "A", "", vec![10]), user(1, "B", "222", vec![10])], 0);
    assert_eq!(validate(&points, &two), Err(SyncError::InvalidCloudUser));
}

#[test]
fn replies_that_cannot_be_used() {
    let mut s = store(vec![user(1, "A", "111", vec![10])], None);
    assert_eq!(heartbeat(&mut s, CloudReply::Unreachable), Err(SyncError::TransportError));
    assert_eq!(
        heartbeat(&mut s, CloudReply::Refused { status: 200 }),
        Err(SyncError::ProtocolError)
    );
    for status in [199u16, 300, 404, 500] {
        let reply = CloudReply::Answered { status, roster: roster(vec![], 1) };
        assert_eq!(heartbeat(&mut s, reply), Err(SyncError::ProtocolError));
    }
    let other_hub = CloudReply::Answered {
        status: 200,
        roster: CloudRoster { hub_id: 2, new_watermark: Timestamp::new(1, 0), users: vec![] },
    };
    assert_eq!(heartbeat(&mut s, other_hub), Err(SyncError::ProtocolError));
    assert_eq!(s.users.len(), 1);
    assert_eq!(s.hub.cloud_last_access_event_at, None);
    for status in [200u16, 204, 299] {
        let reply = CloudReply::Answered { status, roster: roster(vec![], 1) };
        assert!(accept_reply(1, reply).is_ok());
    }
}

#[test]
fn reconcile_checks_the_hub_before_the_roster() {
    let points = vec![Point { id: 10, position: 1 }];
    let local = vec![user(1, "A", "111", vec![10])];
    let wrong = CloudRoster {
        hub_id: 5,
        new_watermark: Timestamp::new(1, 0),
        users: vec![user(1, "A", "", vec![77])],
    };
    assert_eq!(reconcile(1, &None, &points, &local, &wrong).err(), Some(SyncError::ProtocolError));
    let right = roster(vec![user(2, "B", "222", vec![10])], 4);
    let p = reconcile(1, &None, &points, &local, &right).unwrap();
    assert_eq!(
        described(&p),
        vec!["delete [1]".to_string(), "create 2 222".to_string(), "watermark 4".to_string()]
    );
}

#[test]
fn full_round_converges() {
    let mut s = store(
        vec![
            user(1, "A", "111", vec![10]),
            user(2, "B", "222", vec![10, 20]),
            user(3, "C", "333", vec![20]),
            user(4, "D", "444", vec![10]),
        ],
        Some(Timestamp::new(1, 0)),
    );
    let cloud = vec![
        user(5, "E", "444", vec![20]),
        user(3, "C", "333", vec![20]),
        user(2, "Bee", "111", vec![20]),
        user(1, "A", "222", vec![10, 20]),
    ];
    let expected = summary(&cloud);
    assert_eq!(heartbeat(&mut s, answered(cloud, 8)), Ok(()));
    assert_eq!(summary(&s.users), expected);
    assert_eq!(s.hub.cloud_last_access_event_at, Some(Timestamp::new(8, 0)));
    assert_eq!(s.hub.id, 1);
    assert_eq!(s.points.len(), 2);
}

#[test]
fn update_when_only_the_points_differ() {
    let local = vec![user(1, "A", "111", vec![10])];
    let cloud = vec![user(1, "A", "111", vec![10, 20])];
    let at = Timestamp::new(5, 0);
    let p = plan(&Some(at), &local, &cloud, at);
    assert_eq!(described(&p), vec!["update 1 111".to_string()]);
    assert!(p.recycle.is_empty());
}

#[test]
fn statements_and_expected_rows() {
    let update = Mutation::Update { entry: user(1, "A", "111", vec![20, 10, 20]) };
    let s = update.statements();
    assert_eq!(s.len(), 3);
    assert!(matches!(&s[0], Statement::UpdateUser { user } if user.id == 1 && user.code == "111"));
    assert!(matches!(&s[1], Statement::DeleteLinks { user_id: 1 }));
    assert!(
        matches!(&s[2], Statement::InsertLinks { user_id: 1, point_ids } if *point_ids == vec![20, 10])
    );
    assert_eq!(s[0].expected_rows(), Some(1));
    assert_eq!(s[1].expected_rows(), None);
    assert_eq!(s[2].expected_rows(), Some(2));

    let create = Mutation::Create { entry: user(2, "B", "222", vec![10]) };
    let s = create.statements();
    assert_eq!(s.len(), 2);
    assert!(matches!(&s[0], Statement::InsertUser { user } if user.id == 2));
    assert!(matches!(&s[1], Statement::InsertLinks { user_id: 2, point_ids } if *point_ids == vec![10]));

    let delete = Mutation::Delete { ids: vec![4, 5, 6] };
    let s = delete.statements();
    assert_eq!(s.len(), 1);
    assert_eq!(s[0].expected_rows(), Some(3));

    let recycle = Mutation::Recycle { user_id: 3, code: "1-".to_string() };
    let s = recycle.statements();
    assert!(matches!(&s[0], Statement::SetCode { user_id: 3, code } if code == "1-"));

    let mark = Mutation::SetWatermark { at: Timestamp::new(1, 0) };
    assert_eq!(mark.statements()[0].expected_rows(), Some(1));
}

#[test]
fn rows_that_do_not_match_are_inconsistent() {
    let delete = Statement::DeleteUsers { ids: vec![4, 5, 6] };
    assert_eq!(delete.check_rows(3), Ok(()));
    assert_eq!(delete.check_rows(2), Err(SyncError::InconsistentMutation));
    assert_eq!(delete.check_rows(4), Err(SyncError::InconsistentMutation));
    let set = Statement::SetCode { user_id: 1, code: "x".to_string() };
    assert_eq!(set.check_rows(1), Ok(()));
    assert_eq!(set.check_rows(0), Err(SyncError::InconsistentMutation));
    let links = Statement::DeleteLinks { user_id: 1 };
    assert_eq!(links.check_rows(0), Ok(()));
    assert_eq!(links.check_rows(17), Ok(()));
    let mark = Statement::SetWatermark { at: Timestamp::new(1, 0) };
    assert_eq!(mark.check_rows(0), Err(SyncError::InconsistentMutation));
    assert_eq!(mark.check_rows(u64::MAX), Err(SyncError::InconsistentMutation));
}

#[test]
fn point_sets_are_compared_without_order() {
    assert!(same_point_set(&vec![1, 2, 3], &vec![3, 3, 2, 1]));
    assert!(!same_point_set(&vec![1, 2], &vec![1, 2, 3]));
    assert!(same_point_set(&vec![], &vec![]));
    assert_eq!(distinct_points(&vec![3, 1, 3, 2, 1]), vec![3, 1, 2]);
}

#[test]
fn plan_statements_follow_the_apply_order() {
    let local = vec![
        user(1, "A", "111", vec![10]),
        user(2, "B", "222", vec![10]),
        user(3, "C", "333", vec![10]),
    ];
    let cloud = vec![
        user(1, "A", "222", vec![10, 20]),
        user(2, "B", "111", vec![10]),
        user(4, "D", "444", vec![20]),
    ];
    let p = plan(&None, &local, &cloud, Timestamp::new(6, 0));
    let kinds: Vec<String> = p
        .statements()
        .iter()
        .map(|s| match s {
            Statement::DeleteUsers { ids } => format!("delete users {:?}", ids),
            Statement::SetCode { user_id, code } => format!("set code {} {}", user_id, code),
            Statement::UpdateUser { user } => format!("update user {}", user.id),
            Statement::DeleteLinks { user_id } => format!("delete links {}", user_id),
            Statement::InsertLinks { user_id, point_ids } => {
                format!("insert links {} {:?}", user_id, point_ids)
            }
            Statement::InsertUser { user } => format!("insert user {}", user.id),
            Statement::SetWatermark { at } => format!("set watermark {}", at.secs),
        })
        .collect();
    assert_eq!(
        kinds,
        vec![
            "delete users [3]",
            "set code 1 111-",
            "set code 2 222-",
            "update user 1",
            "delete links 1",
            "insert links 1 [10, 20]",
            "update user 2",
            "delete links 2",
            "insert links 2 [10]",
            "insert user 4",
            "insert links 4 [20]",
            "set watermark 6",
        ]
    );
}

#[test]
fn transaction_ends_at_the_first_wrong_count() {
    let statements = vec![
        Statement::DeleteUsers { ids: vec![1, 2] },
        Statement::DeleteLinks { user_id: 3 },
        Statement::SetCode { user_id: 3, code: "x".to_string() },
    ];
    assert_eq!(after_statement(&statements, 0, 2), Progress::Next { index: 1 });
    assert_eq!(
        after_statement(&statements, 0, 1),
        Progress::Rollback { error: SyncError::InconsistentMutation }
    );
    assert_eq!(after_statement(&statements, 1, 0), Progress::Next { index: 2 });
    assert_eq!(after_statement(&statements, 1, 9), Progress::Next { index: 2 });
    assert_eq!(after_statement(&statements, 2, 1), Progress::Commit);
    assert_eq!(
        after_statement(&statements, 2, 0),
        Progress::Rollback { error: SyncError::InconsistentMutation }
    );
    assert_eq!(after_statement(&statements, 3, 0), Progress::Commit);
    assert_eq!(after_statement(&vec![], 0, 0), Progress::Commit);
}

#[test]
fn every_step_finds_what_it_names() {
    let local = vec![
        user(1, "A", "111", vec![10]),
        user(2, "B", "222", vec![10]),
        user(3, "C", "333", vec![20]),
        user(4, "D", "444", vec![20]),
    ];
    let cloud = vec![
        user(6, "F", "333", vec![10]),
        user(2, "B", "111", vec![10]),
        user(1, "A", "222", vec![20]),
        user(5, "E", "555", vec![20]),
        user(4, "D", "444", vec![20]),
    ];
    let p = plan(&None, &local, &cloud, Timestamp::new(1, 0));
    let mut s = store(local, None);
    for m in p.mutations().iter() {
        let has = |id: i64| s.users.iter().filter(|u| u.user.id == id).count();
        match m {
            Mutation::Delete { ids } => assert!(ids.iter().all(|id| has(*id) == 1)),
            Mutation::Recycle { user_id, .. } => assert_eq!(has(*user_id), 1),
            Mutation::Update { entry } => assert_eq!(has(entry.user.id), 1),
            Mutation::Create { entry } => assert_eq!(has(entry.user.id), 0),
            Mutation::SetWatermark { .. } => {}
        }
        s.apply(m);
    }
    assert_eq!(summary(&s.users), summary(&cloud));
}
