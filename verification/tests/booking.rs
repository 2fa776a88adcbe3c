use inventory_bot::models::Entry;
use inventory_bot::repository::Repository;
use inventory_bot::repository::RepositoryError;

fn entry(id: &str, name: &str) -> Entry {
    Entry {
        id: id.to_string(),
        name: name.to_string(),
        image: None,
        description: None,
        note: None,
        created_at: None,
        stored_in: None,
        responsible_person: None,
    }
}

const H09_00: i64 = 32400;
const H09_30: i64 = 34200;
const H09_45: i64 = 35100;
const H10_00: i64 = 36000;
const H10_30: i64 = 37800;
const H11_00: i64 = 39600;
const H11_30: i64 = 41400;
const H12_00: i64 = 43200;

#[test]
fn back_to_back_reservations_succeed() {
    let mut repo = Repository::new();
    repo.add_entry(entry("E", "Easel")).unwrap();
    let ids = vec!["E".to_string()];
    assert!(repo.reserve_entries(&ids, H10_00, H11_00, "alice").is_ok());
    assert!(repo.reserve_entries(&ids, H11_00, H12_00, "bob").is_ok());
}

#[test]
fn conflict_reports_first_entry_and_existing_reservation() {
    let mut repo = Repository::new();
    repo.add_entry(entry("E", "Easel")).unwrap();
    let ids = vec!["E".to_string()];
    repo.reserve_entries(&ids, H09_30, H09_45, "bob").unwrap();
    match repo.reserve_entries(&ids, H09_00, H10_00, "alice") {
        Err(RepositoryError::Conflict { entry_id, existing }) => {
            assert_eq!(entry_id, "E");
            assert_eq!(existing.reserver, "bob");
            assert_eq!(existing.start, H09_30);
            assert_eq!(existing.end, H09_45);
        }
        other => panic!("expected a conflict, got {:?}", other.is_ok()),
    }
}

#[test]
fn failed_reserve_leaves_ledger_unchanged() {
    let mut repo = Repository::new();
    repo.add_entry(entry("A", "Anvil")).unwrap();
    repo.add_entry(entry("B", "Bench")).unwrap();
    let b = vec!["B".to_string()];
    repo.reserve_entries(&b, H10_00, H11_00, "bob").unwrap();
    // B conflicts, so reserving A and B together must change nothing.
    let both = vec!["A".to_string(), "B".to_string()];
    assert!(repo.reserve_entries(&both, H10_30, H11_30, "alice").is_err());
    // A is still free for that window.
    assert!(repo.is_entry_reserved("A", H10_30, H11_30).is_none());
    let a = vec!["A".to_string()];
    assert!(repo.reserve_entries(&a, H10_30, H11_30, "carol").is_ok());
}

#[test]
fn invalid_window_rejected_before_anything_else() {
    let mut repo = Repository::new();
    repo.add_entry(entry("E", "Easel")).unwrap();
    let ids = vec!["E".to_string()];
    assert!(matches!(
        repo.reserve_entries(&ids, H11_00, H11_00, "alice"),
        Err(RepositoryError::InvalidWindow)
    ));
    assert!(matches!(
        repo.reserve_entries(&ids, H12_00, H11_00, "alice"),
        Err(RepositoryError::InvalidWindow)
    ));
}

#[test]
fn unknown_entry_rejected() {
    let mut repo = Repository::new();
    repo.add_entry(entry("E", "Easel")).unwrap();
    let ids = vec!["E".to_string(), "ghost".to_string()];
    match repo.reserve_entries(&ids, H10_00, H11_00, "alice") {
        Err(RepositoryError::UnknownEntry { entry_id }) => assert_eq!(entry_id, "ghost"),
        _ => panic!("expected an unknown-entry error"),
    }
    // Atomic: E was not reserved on the way.
    assert!(repo.is_entry_reserved("E", H10_00, H11_00).is_none());
}

#[test]
fn same_window_same_user_derives_the_same_id() {
    let mut repo = Repository::new();
    repo.add_entry(entry("A", "Anvil")).unwrap();
    repo.add_entry(entry("B", "Bench")).unwrap();
    let a = vec!["A".to_string()];
    let b = vec!["B".to_string()];
    let rid = repo.reserve_entries(&a, H10_00, H11_00, "alice").unwrap();
    // Disjoint entries, identical window and user: the derived id collides
    // and the second insert is refused.
    match repo.reserve_entries(&b, H10_00, H11_00, "alice") {
        Err(RepositoryError::Duplicate { id }) => assert_eq!(id, rid),
        _ => panic!("expected a duplicate-id error"),
    }
}

#[test]
fn overlap_query_returns_earliest_overlapping_reservation() {
    let mut repo = Repository::new();
    repo.add_entry(entry("E", "Easel")).unwrap();
    let ids = vec!["E".to_string()];
    repo.reserve_entries(&ids, H11_00, H12_00, "late").unwrap();
    repo.reserve_entries(&ids, H10_00, H11_00, "early").unwrap();
    let hit = repo.is_entry_reserved("E", H10_30, H11_30).unwrap();
    assert_eq!(hit.reserver, "early");
    assert_eq!(hit.start, H10_00);
    assert_eq!(hit.end, H11_00);
}

#[test]
fn touching_windows_do_not_overlap() {
    let mut repo = Repository::new();
    repo.add_entry(entry("E", "Easel")).unwrap();
    let ids = vec!["E".to_string()];
    repo.reserve_entries(&ids, H10_00, H11_00, "alice").unwrap();
    // A query window ending exactly at the reservation's start is free.
    assert!(repo.is_entry_reserved("E", H09_00, H10_00).is_none());
    // One second into the reservation is not.
    assert!(repo.is_entry_reserved("E", H09_00, H10_00 + 1).is_some());
}

#[test]
fn users_are_stored_and_unique() {
    let mut repo = Repository::new();
    let user = inventory_bot::models::User {
        telegram_username: "alice".to_string(),
        sire: None,
    };
    repo.add_user(user.clone()).unwrap();
    assert!(matches!(
        repo.add_user(user),
        Err(RepositoryError::Duplicate { id }) if id == "alice"
    ));
    let got = repo.get_user("alice").unwrap();
    assert_eq!(got.telegram_username, "alice");
    assert!(repo.get_user("bob").is_none());
}

#[test]
fn entries_are_stored_and_unique() {
    let mut repo = Repository::new();
    repo.add_entry(entry("A", "Anvil")).unwrap();
    assert!(matches!(
        repo.add_entry(entry("A", "Another")),
        Err(RepositoryError::Duplicate { id }) if id == "A"
    ));
    let got = repo.get_entry("A").unwrap();
    assert_eq!(got.name, "Anvil");
    assert!(repo.get_entry("B").is_none());
    let all = repo.get_entries();
    assert_eq!(all.len(), 1);
    assert_eq!(all[0].id, "A");
}
