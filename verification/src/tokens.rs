//! Opaque credential strings: fixed-width random byte strings rendered as
//! URL-safe text. Randomness comes from the operating system and nothing is
//! assumed about the bytes beyond their number.

use vstd::prelude::*;

verus! {

/// Bytes of entropy behind each session credential.
pub const TOKEN_BYTES: usize = 32;

/// Characters in the textual form of a credential: the unpadded base64
/// encoding of [`TOKEN_BYTES`] bytes.
pub const TOKEN_CHARS: usize = 43;

/// The URL-safe, unpadded base64 text of a byte string; a function of the
/// bytes alone.
pub uninterp spec fn b64url_of(bytes: Seq<u8>) -> Seq<char>;

/// Relies on base64's `Engine::encode` with the `BASE64_URL_SAFE_NO_PAD`
/// engine: the result is determined by the input bytes, and its length is
/// 4 characters per complete 3-byte chunk plus 2 or 3 for a 1- or 2-byte
/// remainder (`encoded_len` with `padding == false`).
#[verifier::external_body]
fn b64url_encode(bytes: &[u8]) -> (r: String)
    requires
        bytes@.len() <= usize::MAX as int / 4,
    ensures
        r@ == b64url_of(bytes@),
        r@.len() == 4 * (bytes@.len() / 3) + (if bytes@.len() % 3 == 0 {
            0int
        } else if bytes@.len() % 3 == 1 {
            2int
        } else {
            3int
        }),
{
    base64::Engine::encode(&base64::prelude::BASE64_URL_SAFE_NO_PAD, bytes)
}

/// Relies on rand's `OsRng`: `TryRngCore::try_fill_bytes` either fills the
/// whole buffer from the operating system's randomness source or reports
/// failure. Nothing is assumed about the bytes themselves.
#[verifier::external_body]
fn os_random_bytes(n: usize) -> (r: Option<Vec<u8>>)
    ensures
        r matches Some(b) ==> b@.len() == n,
{
    let mut buf = vec![0u8; n];
    match rand::TryRngCore::try_fill_bytes(&mut rand::rngs::OsRng, &mut buf) {
        Ok(()) => Some(buf),
        Err(_) => None,
    }
}

/// Draw a fresh credential: [`TOKEN_BYTES`] random bytes as URL-safe text.
/// `None` only when the operating system's randomness source fails.
pub fn generate_token() -> (r: Option<String>)
    ensures
        r matches Some(t) ==> t@.len() == TOKEN_CHARS as int,
{
    match os_random_bytes(TOKEN_BYTES) {
        Some(bytes) => Some(b64url_encode(bytes.as_slice())),
        None => None,
    }
}

} // verus!
