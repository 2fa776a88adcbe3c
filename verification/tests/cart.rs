use inventory_bot::models::Entry;
use inventory_bot::repository::Repository;

fn entry(id: &str, name: &str) -> Entry {
    Entry {
        id: id.to_string(),
        name: name.to_string(),
        image: None,
        description: None,
        note: None,
        created_at: None,
        stored_in: None,
        responsible_person: None,
    }
}

#[test]
fn cart_add_is_idempotent() {
    let mut repo = Repository::new();
    repo.add_entry(entry("E", "Easel")).unwrap();
    repo.add_to_cart("alice", "E");
    repo.add_to_cart("alice", "E");
    let cart = repo.get_cart("alice");
    assert_eq!(cart.len(), 1);
    assert_eq!(cart[0].id, "E");
}

#[test]
fn cart_tolerates_unknown_entry_until_listing() {
    let mut repo = Repository::new();
    repo.add_to_cart("alice", "ghost");
    // Staging is tolerated; the listing joins against the entry table and
    // drops the dangling id.
    assert!(repo.get_cart("alice").is_empty());
}

#[test]
fn cart_remove_reports_whether_a_row_was_removed() {
    let mut repo = Repository::new();
    repo.add_entry(entry("E", "Easel")).unwrap();
    repo.add_to_cart("alice", "E");
    assert!(repo.remove_from_cart("alice", "E"));
    assert!(!repo.remove_from_cart("alice", "E"));
    assert!(repo.get_cart("alice").is_empty());
}

#[test]
fn cart_is_listed_by_name_ascending() {
    let mut repo = Repository::new();
    repo.add_entry(entry("w", "Widget")).unwrap();
    repo.add_entry(entry("g", "Gadget")).unwrap();
    repo.add_entry(entry("a", "Anvil")).unwrap();
    repo.add_to_cart("alice", "w");
    repo.add_to_cart("alice", "g");
    repo.add_to_cart("alice", "a");
    let names: Vec<String> = repo.get_cart("alice").into_iter().map(|e| e.name).collect();
    assert_eq!(names, vec!["Anvil", "Gadget", "Widget"]);
}

#[test]
fn carts_are_per_user() {
    let mut repo = Repository::new();
    repo.add_entry(entry("E", "Easel")).unwrap();
    repo.add_to_cart("alice", "E");
    assert!(repo.get_cart("bob").is_empty());
    assert_eq!(repo.get_cart("alice").len(), 1);
}
