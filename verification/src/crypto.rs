//! Hashing, message authentication, encodings and identifiers from outside crates.
use vstd::prelude::*;
use base64::Engine;
use hmac::Mac;
use sha2::Digest;
use subtle::ConstantTimeEq;
use argon2::PasswordVerifier;

verus! {

/// Lower-case hex of the SHA-256 digest of the UTF-8 bytes of `text`.
pub uninterp spec fn sha256_hex(text: Seq<char>) -> Seq<char>;

/// HMAC-SHA-256 of `message` under `key`.
pub uninterp spec fn hmac_sha256(key: Seq<u8>, message: Seq<u8>) -> Seq<u8>;

/// The URL-safe base64 digit of a value below 64: `A`-`Z`, `a`-`z`, `0`-`9`, `-`, `_`.
pub open spec fn b64_digit(v: int) -> char {
    if v < 26 {
        (65 + v) as char
    } else if v < 52 {
        (97 + v - 26) as char
    } else if v < 62 {
        (48 + v - 52) as char
    } else if v == 62 {
        '-'
    } else {
        '_'
    }
}

/// URL-safe base64 without padding: each three bytes become four digits of six bits, high
/// bits first; a last one or two bytes become two or three digits, the unused low bits zero.
pub open spec fn base64url(bytes: Seq<u8>) -> Seq<char>
    decreases bytes.len(),
{
    if bytes.len() == 0 {
        Seq::empty()
    } else if bytes.len() == 1 {
        let b0 = bytes[0] as int;
        seq![b64_digit(b0 / 4), b64_digit((b0 % 4) * 16)]
    } else if bytes.len() == 2 {
        let b0 = bytes[0] as int;
        let b1 = bytes[1] as int;
        seq![b64_digit(b0 / 4), b64_digit((b0 % 4) * 16 + b1 / 16), b64_digit((b1 % 16) * 4)]
    } else {
        let b0 = bytes[0] as int;
        let b1 = bytes[1] as int;
        let b2 = bytes[2] as int;
        seq![
            b64_digit(b0 / 4),
            b64_digit((b0 % 4) * 16 + b1 / 16),
            b64_digit((b1 % 16) * 4 + b2 / 64),
            b64_digit(b2 % 64),
        ] + base64url(bytes.skip(3))
    }
}

/// Decoding of URL-safe base64 without padding; `None` for text that is not such an encoding.
pub uninterp spec fn base64url_decode(text: Seq<char>) -> Option<Seq<u8>>;

/// PBKDF2-HMAC-SHA-256 with 600,000 rounds and a 32-byte output.
pub uninterp spec fn pbkdf2_sha256(password: Seq<char>, salt: Seq<char>) -> Seq<u8>;

/// Whether an Argon2id PHC hash string accepts a password.
pub uninterp spec fn argon2_accepts(password: Seq<char>, stored: Seq<char>) -> bool;

/// The characters of the URL-safe base64 alphabet.
pub open spec fn url_safe_char(c: char) -> bool {
    ||| 'A' <= c <= 'Z'
    ||| 'a' <= c <= 'z'
    ||| '0' <= c <= '9'
    ||| c == '-'
    ||| c == '_'
}

pub open spec fn lower_hex_char(c: char) -> bool {
    ('0' <= c <= '9') || ('a' <= c <= 'f')
}

/// `sha2::Sha256::digest`, printed as lower-case hex: 64 hex digits, a function of the text.
#[verifier::external_body]
pub fn digest(text: &str) -> (r: String)
    ensures
        r@ == sha256_hex(text@),
        r@.len() == 64,
        forall|i: int| 0 <= i < r@.len() ==> lower_hex_char(#[trigger] r@[i]),
{
    format!("{:x}", sha2::Sha256::digest(text.as_bytes()))
}

/// Whether offset `i` of a hyphenated UUID holds a `-`.
pub open spec fn uuid_hyphen_at(i: int) -> bool {
    i == 8 || i == 13 || i == 18 || i == 23
}

/// The hyphenated text of a version-4 UUID: 36 characters, `-` at offsets 8, 13, 18 and 23,
/// lower-case hex elsewhere, the version digit `4` at offset 14 and one of `8`, `9`, `a`, `b`
/// (the variant) at offset 19.
pub open spec fn uuid_v4_text(s: Seq<char>) -> bool {
    &&& s.len() == 36
    &&& forall|i: int|
        #![trigger s[i]]
        0 <= i < 36 ==> (if uuid_hyphen_at(i) {
            s[i] == '-'
        } else {
            lower_hex_char(s[i])
        })
    &&& s[14] == '4'
    &&& (s[19] == '8' || s[19] == '9' || s[19] == 'a' || s[19] == 'b')
}

/// `uuid::Uuid::new_v4`, hyphenated by its `Display`: a random version-4 UUID in the layout of
/// `uuid_v4_text`. Which UUID comes back is left open: it is random.
#[verifier::external_body]
pub fn uid() -> (r: String)
    ensures
        uuid_v4_text(r@),
        r@.len() == 36,
        forall|i: int| 0 <= i < r@.len() ==> lower_hex_char(#[trigger] r@[i]) || r@[i] == '-',
{
    uuid::Uuid::new_v4().to_string()
}

/// `subtle::ConstantTimeEq` on the UTF-8 bytes: whether the two strings are equal.
#[verifier::external_body]
pub fn equal(a: &str, b: &str) -> (r: bool)
    ensures
        r == (a@ == b@),
{
    bool::from(a.as_bytes().ct_eq(b.as_bytes()))
}

/// `base64::engine::general_purpose::URL_SAFE_NO_PAD.encode`: the text uses only the URL-safe
/// alphabet and decodes back to `bytes`.
#[verifier::external_body]
pub fn b64_encode(bytes: &[u8]) -> (r: String)
    ensures
        r@ == base64url(bytes@),
        base64url_decode(r@) == Some(bytes@),
        forall|i: int| 0 <= i < r@.len() ==> url_safe_char(#[trigger] r@[i]),
{
    base64::engine::general_purpose::URL_SAFE_NO_PAD.encode(bytes)
}

/// `base64::engine::general_purpose::URL_SAFE_NO_PAD.decode`.
#[verifier::external_body]
pub fn b64_decode(text: &str) -> (r: Option<Vec<u8>>)
    ensures
        match r {
            Some(b) => base64url_decode(text@) == Some(b@),
            None => base64url_decode(text@) is None,
        },
{
    base64::engine::general_purpose::URL_SAFE_NO_PAD.decode(text).ok()
}

/// `hmac::Hmac::<Sha256>` over `message` with `key` (any key length is accepted).
#[verifier::external_body]
pub fn hmac_tag(key: &[u8], message: &[u8]) -> (r: Vec<u8>)
    ensures
        r@ == hmac_sha256(key@, message@),
{
    match hmac::Hmac::<sha2::Sha256>::new_from_slice(key) {
        Ok(mut mac) => {
            mac.update(message);
            mac.finalize().into_bytes().to_vec()
        },
        Err(_) => Vec::new(),
    }
}

/// `hmac::Mac::verify_slice`: whether `tag` is the HMAC-SHA-256 of `message` under `key`.
#[verifier::external_body]
pub fn hmac_matches(key: &[u8], message: &[u8], tag: &[u8]) -> (r: bool)
    ensures
        r == (tag@ == hmac_sha256(key@, message@)),
{
    match hmac::Hmac::<sha2::Sha256>::new_from_slice(key) {
        Ok(mut mac) => {
            mac.update(message);
            mac.verify_slice(tag).is_ok()
        },
        Err(_) => false,
    }
}

/// `pbkdf2::pbkdf2_hmac::<Sha256>` with 600,000 rounds into 32 bytes.
#[verifier::external_body]
pub fn pbkdf2_hash(password: &str, salt: &str) -> (r: Vec<u8>)
    ensures
        r@ == pbkdf2_sha256(password@, salt@),
        r@.len() == 32,
{
    let mut output = [0u8; 32];
    pbkdf2::pbkdf2_hmac::<sha2::Sha256>(password.as_bytes(), salt.as_bytes(), 600_000, &mut output);
    output.to_vec()
}

/// `argon2::PasswordVerifier::verify_password` after `PasswordHash::new`, with the Argon2id
/// engine m=19456 KiB, t=2, p=1, 32-byte output: false when the stored
/// string does not parse or does not accept the password.
#[verifier::external_body]
pub fn argon2_verify(password: &str, stored: &str) -> (r: bool)
    ensures
        r == argon2_accepts(password@, stored@),
{
    let engine = argon2::Argon2::new(
        argon2::Algorithm::Argon2id,
        argon2::Version::V0x13,
        argon2::Params::new(19 * 1024, 2, 1, Some(32)).expect("valid Argon2 parameters"),
    );
    match argon2::password_hash::PasswordHash::new(stored) {
        Ok(parsed) => engine.verify_password(password.as_bytes(), &parsed).is_ok(),
        Err(_) => false,
    }
}

} // verus!
