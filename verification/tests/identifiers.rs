use base64::Engine;
use sha2::Digest;

// The id derivation must agree with computing the digest directly: the two
// window instants rendered as date text, then the username, hashed with
// SHA-512 and base64-encoded.
#[test]
fn reservation_id_equals_directly_computed_digest() {
    let start: i64 = 36000;
    let end: i64 = 39600;
    let made_by = "alice";

    let start_text = chrono::DateTime::from_timestamp(start, 0)
        .unwrap()
        .naive_utc()
        .format("%Y-%m-%d %H:%M:%S")
        .to_string();
    let end_text = chrono::DateTime::from_timestamp(end, 0)
        .unwrap()
        .naive_utc()
        .format("%Y-%m-%d %H:%M:%S")
        .to_string();
    assert_eq!(start_text, "1970-01-01 10:00:00");
    assert_eq!(end_text, "1970-01-01 11:00:00");

    let mut hasher = sha2::Sha512::default();
    hasher.update(start_text.as_bytes());
    hasher.update(end_text.as_bytes());
    hasher.update(made_by.as_bytes());
    let expected = base64::prelude::BASE64_STANDARD.encode(hasher.finalize());

    let got = inventory_bot::idgen::reservation_id(start, end, made_by);
    assert_eq!(got, expected);
    assert_eq!(got.len(), 88);
}

#[test]
fn reservation_id_depends_on_window_and_user() {
    let a = inventory_bot::idgen::reservation_id(36000, 39600, "alice");
    let b = inventory_bot::idgen::reservation_id(36000, 39600, "bob");
    let c = inventory_bot::idgen::reservation_id(36000, 43200, "alice");
    assert_ne!(a, b);
    assert_ne!(a, c);
    assert_eq!(a, inventory_bot::idgen::reservation_id(36000, 39600, "alice"));
}

#[test]
fn generated_tokens_are_url_safe_text() {
    let token = inventory_bot::tokens::generate_token().unwrap();
    assert_eq!(token.len(), 43);
    assert!(token
        .chars()
        .all(|c| c.is_ascii_alphanumeric() || c == '-' || c == '_'));
}
