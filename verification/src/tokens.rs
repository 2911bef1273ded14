//! Short-lived HS256 access tokens. The claims travel as JSON bytes; this module frames,
//! signs and checks them.
use crate::crypto::{
    b64_decode, b64_encode, base64url, base64url_decode, hmac_matches, hmac_sha256, hmac_tag,
    url_safe_char,
};
use crate::failure::{fail, Failure};
use crate::text::{
    before_first, chars_of, eq_lit, first_index_vec, last_index_of, last_index_vec, push_str,
    slice_copy, string_of, utf8_len, utf8_len_at_most,
};
use vstd::prelude::*;
use vstd::string::StringSliceAdditionalSpecFns;
use vstd::utf8::encode_utf8;

verus! {

/// Lifetime of an access token, in seconds.
pub const ACCESS_SECONDS: u64 = 300;

/// The only accepted JWT header: `{"alg":"HS256","typ":"JWT"}` in URL-safe base64.
pub const HEADER: &'static str = "eyJhbGciOiJIUzI1NiIsInR5cCI6IkpXVCJ9";

/// The claims of an access token.
#[derive(Clone, Debug)]
pub struct Claims {
    pub iss: String,
    pub aud: String,
    pub sub: String,
    pub username: String,
    pub provider: String,
    pub csrf: String,
    pub iat: u64,
    pub exp: u64,
}

pub open spec fn invalid_token_message() -> Seq<char> {
    "Your access token expired. Please sign in again."@
}

pub open spec fn weak_secret_message() -> Seq<char> {
    "Configure a strong FOLIO_JWT_SECRET."@
}

/// A signing secret must have at least 64 bytes.
pub open spec fn secret_ok(secret: Seq<char>) -> bool {
    utf8_len(secret) >= 64
}

/// `HEADER.payload`, the signed part of a token.
pub open spec fn signing_input(payload: Seq<u8>) -> Seq<char> {
    HEADER@ + seq!['.'] + base64url(payload)
}

/// The token for `payload` signed with `secret`.
pub open spec fn signed_token(secret: Seq<char>, payload: Seq<u8>) -> Seq<char> {
    signing_input(payload) + seq!['.'] + base64url(
        hmac_sha256(encode_utf8(secret), encode_utf8(signing_input(payload))),
    )
}

/// What `verify` gives for a token: the payload bytes, or the status and message it fails with.
pub open spec fn verified_payload(secret: Seq<char>, token: Seq<char>) -> Result<
    Seq<u8>,
    (u16, Seq<char>),
> {
    let invalid = (401u16, invalid_token_message());
    let k = last_index_of(token, '.');
    if utf8_len(token) > 4096 || k < 0 {
        Err(invalid)
    } else {
        let data = token.take(k);
        let signature = token.skip(k + 1);
        let header = before_first(data, '.');
        if header.len() == data.len() {
            Err(invalid)
        } else {
            let payload = data.skip(header.len() + 1int);
            if header != HEADER@ {
                Err(invalid)
            } else if !secret_ok(secret) {
                Err((503u16, weak_secret_message()))
            } else {
                match base64url_decode(signature) {
                    None => Err(invalid),
                    Some(tag) => if tag != hmac_sha256(encode_utf8(secret), encode_utf8(data)) {
                        Err(invalid)
                    } else {
                        match base64url_decode(payload) {
                            None => Err(invalid),
                            Some(bytes) => Ok(bytes),
                        }
                    },
                }
            }
        }
    }
}

proof fn lemma_header_has_no_dot()
    ensures
        forall|i: int| 0 <= i < HEADER@.len() ==> #[trigger] HEADER@[i] != '.',
        HEADER@.len() == 36,
{
    reveal_strlit("eyJhbGciOiJIUzI1NiIsInR5cCI6IkpXVCJ9");
}

/// Signs JSON claim bytes: `HEADER.base64(payload).base64(hmac)`. A secret under 64 bytes is
/// refused. A token that comes back is accepted by `verify` with the same secret, which gives
/// back `payload`, whenever it is at most 4096 bytes long.
pub fn sign(secret: &str, payload: &[u8]) -> (r: Result<String, Failure>)
    ensures
        secret_ok(secret@) <==> r is Ok,
        r matches Ok(t) ==> t@ == signed_token(secret@, payload@),
        r matches Ok(t) ==> (utf8_len(t@) <= 4096 ==> verified_payload(secret@, t@) == Ok::<
            Seq<u8>,
            (u16, Seq<char>),
        >(payload@)),
        r matches Err(f) ==> f.status == 503 && f.message@ == weak_secret_message(),
{
    let encoded = b64_encode(payload);
    let mut data = HEADER.to_owned();
    data.push('.');
    push_str(&mut data, encoded.as_str());
    assert(data@ == signing_input(payload@));
    let s = chars_of(secret);
    if utf8_len_at_most(s.as_slice(), 63) {
        return Err(fail(503, "Configure a strong FOLIO_JWT_SECRET."));
    }
    let tag = hmac_tag(secret.as_bytes(), data.as_str().as_bytes());
    let signature = b64_encode(tag.as_slice());
    let mut token = data.clone();
    token.push('.');
    push_str(&mut token, signature.as_str());
    proof {
        lemma_header_has_no_dot();
        let t = token@;
        let d = data@;
        let sig = signature@;
        assert(t == d + seq!['.'] + sig);
        lemma_last_dot(d, sig);
        assert(t.take(d.len() as int) =~= d);
        assert(t.skip(d.len() + 1int) =~= sig);
        lemma_first_dot(HEADER@, encoded@);
        assert(d.skip(HEADER@.len() + 1int) =~= encoded@);
    }
    Ok(token)
}

proof fn lemma_last_dot(d: Seq<char>, sig: Seq<char>)
    requires
        forall|i: int| 0 <= i < sig.len() ==> url_safe_char(#[trigger] sig[i]),
    ensures
        last_index_of(d + seq!['.'] + sig, '.') == d.len(),
    decreases sig.len(),
{
    let t = d + seq!['.'] + sig;
    if sig.len() == 0 {
        assert(t.last() == '.');
    } else {
        assert(url_safe_char(sig.last()));
        assert(t.drop_last() =~= d + seq!['.'] + sig.drop_last());
        lemma_last_dot(d, sig.drop_last());
    }
}

proof fn lemma_first_dot(h: Seq<char>, rest: Seq<char>)
    requires
        forall|i: int| 0 <= i < h.len() ==> #[trigger] h[i] != '.',
    ensures
        before_first(h + seq!['.'] + rest, '.') == h,
    decreases h.len(),
{
    let t = h + seq!['.'] + rest;
    if h.len() == 0 {
        assert(t[0] == '.');
    } else {
        assert(t.drop_first() =~= h.drop_first() + seq!['.'] + rest);
        lemma_first_dot(h.drop_first(), rest);
        assert(seq![h[0]] + h.drop_first() =~= h);
    }
}

/// Checks the frame and signature of an access token and gives back its JSON claim bytes.
/// Only the exact HS256 header is accepted; there is no algorithm negotiation.
pub fn verify(secret: &str, token: &str) -> (r: Result<Vec<u8>, Failure>)
    ensures
        match verified_payload(secret@, token@) {
            Ok(bytes) => r matches Ok(b) && b@ == bytes,
            Err(e) => r matches Err(f) && f.status == e.0 && f.message@ == e.1,
        },
{
    let t = chars_of(token);
    let invalid = "Your access token expired. Please sign in again.";
    if !utf8_len_at_most(t.as_slice(), 4096) {
        return Err(fail(401, invalid));
    }
    let k = match last_index_vec(t.as_slice(), '.') {
        Some(k) => k,
        None => {
            return Err(fail(401, invalid));
        },
    };
    let data = slice_copy(t.as_slice(), 0, k);
    let signature = slice_copy(t.as_slice(), k + 1, t.len());
    assert(data@ == token@.take(k as int));
    assert(signature@ == token@.skip(k + 1));
    let h = match first_index_vec(data.as_slice(), '.') {
        Some(h) => h,
        None => {
            return Err(fail(401, invalid));
        },
    };
    let header = slice_copy(data.as_slice(), 0, h);
    let payload = slice_copy(data.as_slice(), h + 1, data.len());
    assert(payload@ == data@.skip(h + 1));
    if !eq_lit(header.as_slice(), HEADER) {
        return Err(fail(401, invalid));
    }
    let s = chars_of(secret);
    if utf8_len_at_most(s.as_slice(), 63) {
        return Err(fail(503, "Configure a strong FOLIO_JWT_SECRET."));
    }
    let signature_text = string_of(signature.as_slice());
    let tag = match b64_decode(signature_text.as_str()) {
        Some(tag) => tag,
        None => {
            return Err(fail(401, invalid));
        },
    };
    let data_text = string_of(data.as_slice());
    if !hmac_matches(secret.as_bytes(), data_text.as_str().as_bytes(), tag.as_slice()) {
        return Err(fail(401, invalid));
    }
    let payload_text = string_of(payload.as_slice());
    match b64_decode(payload_text.as_str()) {
        Some(bytes) => Ok(bytes),
        None => Err(fail(401, invalid)),
    }
}

/// Whether verified claims are current and meant for this API and provider.
pub open spec fn claims_ok(c: Claims, now: u64, provider: Seq<char>) -> bool {
    &&& c.iss@ == "folio"@
    &&& c.aud@ == "folio-api"@
    &&& c.provider@ == provider
    &&& c.sub@.len() > 0
    &&& c.username@.len() > 0
    &&& c.csrf@.len() > 0
    &&& c.iat <= now
    &&& now < c.exp
    &&& c.exp - c.iat == ACCESS_SECONDS
}

/// Accepts claims that are current at `now` (seconds) for `provider`, else the 401 failure.
pub fn check_claims(claims: Claims, now: u64, provider: &str) -> (r: Result<Claims, Failure>)
    ensures
        r is Ok <==> claims_ok(claims, now, provider@),
        r matches Ok(c) ==> c == claims,
        r matches Err(f) ==> f.status == 401 && f.message@ == invalid_token_message(),
{
    let iss = chars_of(claims.iss.as_str());
    let aud = chars_of(claims.aud.as_str());
    let p = chars_of(claims.provider.as_str());
    let want = chars_of(provider);
    if !eq_lit(iss.as_slice(), "folio") || !eq_lit(aud.as_slice(), "folio-api")
        || !crate::text::eq_chars(p.as_slice(), want.as_slice()) || claims.sub.as_str().is_empty()
        || claims.username.as_str().is_empty() || claims.csrf.as_str().is_empty() || claims.iat
        > now || claims.exp <= now || claims.exp - claims.iat != ACCESS_SECONDS {
        return Err(fail(401, "Your access token expired. Please sign in again."));
    }
    Ok(claims)
}

/// The fields of the access claims made at `now_ms` for a session.
pub open spec fn access_claims_fields(
    c: Claims,
    now_ms: u64,
    subject: Seq<char>,
    username: Seq<char>,
    provider: Seq<char>,
    csrf: Seq<char>,
) -> bool {
    &&& c.iss@ == "folio"@
    &&& c.aud@ == "folio-api"@
    &&& c.sub@ == subject
    &&& c.username@ == username
    &&& c.provider@ == provider
    &&& c.csrf@ == csrf
    &&& c.iat == now_ms / 1000
    &&& c.exp == now_ms / 1000 + ACCESS_SECONDS
}

/// The claims of a new access token: issued at `now_ms` (in seconds), valid for 300 seconds.
pub fn access_claims(now_ms: u64, subject: &str, username: &str, provider: &str, csrf: &str) -> (r:
    Claims)
    ensures
        access_claims_fields(r, now_ms, subject@, username@, provider@, csrf@),
{
    Claims {
        iss: "folio".to_owned(),
        aud: "folio-api".to_owned(),
        sub: subject.to_owned(),
        username: username.to_owned(),
        provider: provider.to_owned(),
        csrf: csrf.to_owned(),
        iat: now_ms / 1000,
        exp: now_ms / 1000 + ACCESS_SECONDS,
    }
}

/// Access claims issued at `now_ms` for a non-empty subject, username and CSRF token are accepted
/// for their provider at every second from their issue until 300 seconds later, and not after.
pub proof fn lemma_access_claims_lifetime(
    c: Claims,
    now_ms: u64,
    subject: Seq<char>,
    username: Seq<char>,
    provider: Seq<char>,
    csrf: Seq<char>,
    t: u64,
)
    requires
        access_claims_fields(c, now_ms, subject, username, provider, csrf),
        subject.len() > 0,
        username.len() > 0,
        csrf.len() > 0,
    ensures
        claims_ok(c, t, provider) <==> (now_ms / 1000 <= t < now_ms / 1000 + ACCESS_SECONDS),
{
    reveal_strlit("folio");
    reveal_strlit("folio-api");
}

} // verus!
