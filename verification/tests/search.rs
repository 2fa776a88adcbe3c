use inventory_bot::models::Entry;
use inventory_bot::repository::Repository;

fn entry(id: &str, name: &str, description: Option<&str>) -> Entry {
    Entry {
        id: id.to_string(),
        name: name.to_string(),
        image: None,
        description: description.map(|d| d.to_string()),
        note: None,
        created_at: None,
        stored_in: None,
        responsible_person: None,
    }
}

#[test]
fn search_finds_substring_of_name() {
    let mut repo = Repository::new();
    repo.add_entry(entry("A1", "Widget", None)).unwrap();
    repo.add_entry(entry("B2", "Gadget", None)).unwrap();
    let hits = repo.search_entries("idg", 15);
    assert_eq!(hits.len(), 1);
    assert_eq!(hits[0].name, "Widget");
}

#[test]
fn search_limit_truncates_in_storage_order() {
    let mut repo = Repository::new();
    repo.add_entry(entry("A1", "Widget", None)).unwrap();
    repo.add_entry(entry("B2", "Gadget", None)).unwrap();
    let hits = repo.search_entries("dget", 1);
    assert_eq!(hits.len(), 1);
    assert_eq!(hits[0].id, "A1");
}

#[test]
fn search_matches_id_and_description_too() {
    let mut repo = Repository::new();
    repo.add_entry(entry("tool-7", "Hammer", None)).unwrap();
    repo.add_entry(entry("B2", "Crate", Some("wooden box"))).unwrap();
    let by_id = repo.search_entries("ool-7", 15);
    assert_eq!(by_id.len(), 1);
    assert_eq!(by_id[0].name, "Hammer");
    let by_description = repo.search_entries("oden b", 15);
    assert_eq!(by_description.len(), 1);
    assert_eq!(by_description[0].name, "Crate");
}

#[test]
fn empty_term_matches_everything() {
    let mut repo = Repository::new();
    repo.add_entry(entry("A1", "Widget", None)).unwrap();
    repo.add_entry(entry("B2", "Gadget", None)).unwrap();
    assert_eq!(repo.search_entries("", 15).len(), 2);
}

#[test]
fn unmatched_term_yields_nothing() {
    let mut repo = Repository::new();
    repo.add_entry(entry("A1", "Widget", None)).unwrap();
    assert!(repo.search_entries("zeppelin", 15).is_empty());
}
