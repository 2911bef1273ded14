//! Password hashing: Argon2id for new hashes, legacy PBKDF2 accepted and upgraded on login.
use crate::crypto::{argon2_accepts, argon2_verify, pbkdf2_hash, pbkdf2_sha256};
use crate::paths::hex_encode;
use crate::text::{chars_of, is_ascii_hexdigit, starts_with_lit};
use argon2::PasswordHasher;
use vstd::prelude::*;

verus! {

/// `argon2::PasswordHasher::hash_password` with a salt from a random UUID. The salt is random;
/// what is stated is that a hash that comes back is an Argon2id PHC string with this engine's
/// parameters, and that it accepts the password it was made from.
#[verifier::external_body]
pub fn hash(password: &str) -> (r: Result<String, String>)
    ensures
        r matches Ok(h) ==> argon2_accepts(password@, h@) && "$argon2id$v=19$m=19456,t=2,p=1$"@.is_prefix_of(h@),
{
    let salt = argon2::password_hash::SaltString::encode_b64(uuid::Uuid::new_v4().as_bytes())
        .map_err(|e| e.to_string())?;
    let engine = argon2::Argon2::new(
        argon2::Algorithm::Argon2id,
        argon2::Version::V0x13,
        argon2::Params::new(19 * 1024, 2, 1, Some(32)).expect("valid Argon2 parameters"),
    );
    engine.hash_password(password.as_bytes(), &salt).map(|h| h.to_string()).map_err(|e| e.to_string())
}

/// What checking a password against a stored hash gives: `Some(false)` for an Argon2id hash that
/// accepts it, `Some(true)` for a legacy PBKDF2 hex digest that matches (the hash must then be
/// upgraded), `None` otherwise.
pub open spec fn password_check(password: Seq<char>, salt: Seq<char>, stored: Seq<char>) -> Option<
    bool,
> {
    if "$argon2id$"@.is_prefix_of(stored) {
        if argon2_accepts(password, stored) {
            Some(false)
        } else {
            None
        }
    } else if stored.len() != 64 || !(forall|i: int|
        0 <= i < stored.len() ==> is_ascii_hexdigit(#[trigger] stored[i])) {
        None
    } else if hex_encode(pbkdf2_sha256(password, salt)) == stored {
        Some(true)
    } else {
        None
    }
}

fn hex_bytes(b: &[u8]) -> (r: Vec<char>)
    ensures
        r@ == hex_encode(b@),
{
    let mut out: Vec<char> = Vec::new();
    let mut i: usize = 0;
    while i < b.len()
        invariant
            i <= b.len(),
            out@ == hex_encode(b@.take(i as int)),
        decreases b.len() - i,
    {
        let x = b[i];
        out.push(crate::paths::hex_char_of(x / 16));
        out.push(crate::paths::hex_char_of(x % 16));
        i = i + 1;
        assert(out@ =~= hex_encode(b@.take(i as int)));
    }
    assert(b@.take(b.len() as int) =~= b@);
    out
}

/// Checks a password against the stored hash (see `password_check`).
pub fn verify(password: &str, salt: &str, stored: &str) -> (r: Option<bool>)
    ensures
        r == password_check(password@, salt@, stored@),
{
    let s = chars_of(stored);
    if starts_with_lit(s.as_slice(), "$argon2id$") {
        return if argon2_verify(password, stored) {
            Some(false)
        } else {
            None
        };
    }
    if s.len() != 64 {
        return None;
    }
    let mut i: usize = 0;
    while i < s.len()
        invariant
            i <= s.len(),
            s.len() == 64,
            s@ == stored@,
            !"$argon2id$"@.is_prefix_of(s@),
            forall|j: int| 0 <= j < i ==> is_ascii_hexdigit(#[trigger] s@[j]),
        decreases s.len() - i,
    {
        let c = s[i];
        if !(('0' <= c && c <= '9') || ('a' <= c && c <= 'f') || ('A' <= c && c <= 'F')) {
            assert(!is_ascii_hexdigit(s@[i as int]));
            return None;
        }
        i = i + 1;
    }
    let output = pbkdf2_hash(password, salt);
    let actual = hex_bytes(output.as_slice());
    if crate::text::eq_chars(actual.as_slice(), s.as_slice()) {
        Some(true)
    } else {
        None
    }
}

/// A hash made by `hash` verifies its own password as current (no upgrade needed), whatever
/// salt column is stored beside it.
pub proof fn lemma_fresh_hash_verifies(password: Seq<char>, salt: Seq<char>, stored: Seq<char>)
    requires
        argon2_accepts(password, stored),
        "$argon2id$v=19$m=19456,t=2,p=1$"@.is_prefix_of(stored),
    ensures
        password_check(password, salt, stored) == Some(false),
{
    reveal_strlit("$argon2id$v=19$m=19456,t=2,p=1$");
    reveal_strlit("$argon2id$");
    assert("$argon2id$"@ =~= stored.subrange(0, 10));
}

} // verus!
