//! Deterministic reservation identifiers.
//!
//! A reservation id is derived from the window and the reserving user alone:
//! the two timestamps are rendered as `YYYY-MM-DD HH:MM:SS` text, the
//! concatenation of both texts and the username is hashed with SHA-512, and
//! the digest is base64-encoded. Identical requests therefore derive the
//! identical id; collision of distinct requests is treated as practically
//! impossible, not specially handled, and the id never substitutes for the
//! overlap check.

use vstd::prelude::*;

use vstd::string::StringExecFns;

verus! {

/// Latest representable instant: 9999-12-31 23:59:59 UTC, the last second
/// the four-digit-year date text can carry.
pub const MAX_TIMESTAMP: i64 = 253402300799;

/// Instants the core accepts: from the epoch up to [`MAX_TIMESTAMP`].
pub open spec fn ts_in_range(t: int) -> bool {
    0 <= t <= MAX_TIMESTAMP as int
}

/// The `YYYY-MM-DD HH:MM:SS` rendering of an instant; a function of the
/// instant alone.
pub uninterp spec fn datetime_text_of(t: int) -> Seq<char>;

/// Relies on chrono: `DateTime::from_timestamp` yields the UTC date-time of
/// an epoch second (`Some` for every in-range instant), and formatting it
/// with `%Y-%m-%d %H:%M:%S` renders it as 19 characters of date text,
/// determined by the instant alone.
#[verifier::external_body]
fn format_timestamp(t: i64) -> (r: String)
    requires
        ts_in_range(t as int),
    ensures
        r@ == datetime_text_of(t as int),
        r@.len() == 19,
{
    let dt = chrono::DateTime::from_timestamp(t, 0).unwrap();
    dt.naive_utc().format("%Y-%m-%d %H:%M:%S").to_string()
}

/// The SHA-512 digest of the UTF-8 bytes of a text; a function of the text
/// alone.
pub uninterp spec fn sha512_of(text: Seq<char>) -> Seq<u8>;

/// Relies on sha2: `Sha512` under the `Digest` trait maps the input bytes to
/// their 64-byte SHA-512 digest, determined by the input alone.
#[verifier::external_body]
fn sha512_text(text: &str) -> (r: Vec<u8>)
    ensures
        r@ == sha512_of(text@),
        r@.len() == 64,
{
    let mut hasher = sha2::Sha512::default();
    sha2::Digest::update(&mut hasher, text.as_bytes());
    let digest = sha2::Digest::finalize(hasher);
    digest.to_vec()
}

/// The standard, padded base64 text of a byte string; a function of the
/// bytes alone.
pub uninterp spec fn b64_of(bytes: Seq<u8>) -> Seq<char>;

/// Relies on base64's `Engine::encode` with the `BASE64_STANDARD` engine:
/// the result is determined by the input bytes, and its length is 4
/// characters per complete 3-byte chunk plus 4 for any remainder
/// (`encoded_len` with `padding == true`).
#[verifier::external_body]
fn b64_encode(bytes: &[u8]) -> (r: String)
    requires
        bytes@.len() <= usize::MAX as int / 4,
    ensures
        r@ == b64_of(bytes@),
        r@.len() == 4 * (bytes@.len() / 3) + (if bytes@.len() % 3 == 0 {
            0int
        } else {
            4int
        }),
{
    base64::Engine::encode(&base64::prelude::BASE64_STANDARD, bytes)
}

/// The id derived for a reservation of `[start, end)` made by `made_by`.
pub open spec fn reservation_id_of(start: int, end: int, made_by: Seq<char>) -> Seq<char> {
    b64_of(sha512_of(datetime_text_of(start) + datetime_text_of(end) + made_by))
}

/// Derive the reservation id: base64 of the SHA-512 digest of the window's
/// date texts followed by the username.
pub fn reservation_id(start: i64, end: i64, made_by: &str) -> (r: String)
    requires
        ts_in_range(start as int),
        ts_in_range(end as int),
    ensures
        r@ == reservation_id_of(start as int, end as int, made_by@),
        r@.len() == 88,
{
    let mut text = format_timestamp(start);
    let end_text = format_timestamp(end);
    text.append(end_text.as_str());
    text.append(made_by);
    proof {
        assert(text@ =~= datetime_text_of(start as int) + datetime_text_of(end as int) + made_by@);
    }
    let digest = sha512_text(text.as_str());
    b64_encode(digest.as_slice())
}

} // verus!
