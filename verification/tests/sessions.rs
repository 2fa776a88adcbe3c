use inventory_bot::sessions::Sessions;

#[test]
fn create_then_check_succeeds_immediately() {
    let mut sessions = Sessions::new();
    let now = 100;
    let (token, logout_key) = sessions.create_session("alice".to_string(), 1, now).unwrap();
    assert_eq!(token.len(), 43);
    assert_eq!(logout_key.len(), 43);
    assert_ne!(token, logout_key);
    let data = sessions.check_session(&token, now).unwrap();
    assert_eq!(data.username, "alice");
    assert_eq!(data.logout_key, logout_key);
}

#[test]
fn expired_session_is_absent_without_any_sweep() {
    let mut sessions = Sessions::new();
    let now = 100;
    let (token, _) = sessions.create_session("alice".to_string(), 1, now).unwrap();
    assert!(sessions.check_session(&token, now).is_some());
    // One second later the session has expired; no sweep has run.
    assert!(sessions.check_session(&token, now + 1).is_none());
    assert!(sessions.check_session(&token, now + 1000).is_none());
}

#[test]
fn sweep_changes_no_lookup_result() {
    let mut sessions = Sessions::new();
    let now = 100;
    let (short, _) = sessions.create_session("alice".to_string(), 1, now).unwrap();
    let (long, _) = sessions.create_session("bob".to_string(), 3600, now).unwrap();
    sessions.sweep(now + 10);
    assert!(sessions.check_session(&short, now + 10).is_none());
    let data = sessions.check_session(&long, now + 10).unwrap();
    assert_eq!(data.username, "bob");
}

#[test]
fn delete_reports_whether_a_session_existed() {
    let mut sessions = Sessions::new();
    let now = 100;
    let (token, _) = sessions.create_session("alice".to_string(), 3600, now).unwrap();
    assert!(sessions.delete_session(&token));
    assert!(sessions.check_session(&token, now).is_none());
    assert!(!sessions.delete_session(&token));
    assert!(!sessions.delete_session("never-issued"));
}

#[test]
fn insert_replaces_the_session_under_a_token() {
    let mut sessions = Sessions::new();
    sessions.insert_session("tok".to_string(), "alice".to_string(), "k1".to_string(), 200);
    sessions.insert_session("tok".to_string(), "bob".to_string(), "k2".to_string(), 300);
    let data = sessions.check_session("tok", 250).unwrap();
    assert_eq!(data.username, "bob");
    assert_eq!(data.logout_key, "k2");
}

#[test]
fn distinct_sessions_get_distinct_tokens() {
    let mut sessions = Sessions::new();
    let now = 100;
    let (t1, _) = sessions.create_session("alice".to_string(), 3600, now).unwrap();
    let (t2, _) = sessions.create_session("alice".to_string(), 3600, now).unwrap();
    assert_ne!(t1, t2);
    assert!(sessions.check_session(&t1, now).is_some());
    assert!(sessions.check_session(&t2, now).is_some());
}
