//! Sign-in rules: password setup and login, Cloudflare Access identities, refresh cookies and
//! the checks an access token must pass.
use crate::crypto::{equal, uid, uuid_v4_text};
use crate::failure::{fail, Failure};
use crate::service::Request;
use crate::text::{chars_of, decimal, eq_lit, push_decimal, push_str, trim, trim_vec, utf8_len, utf8_len_at_most};
use crate::tokens::Claims;
use vstd::prelude::*;

verus! {

/// A refresh session lasts one week, in milliseconds.
pub const SESSION_MS: u64 = 7 * 24 * 60 * 60 * 1000;

/// How the workspace owner signs in.
#[derive(Clone, Copy, Debug, PartialEq, Eq, Structural)]
pub enum AuthMethod {
    Password,
    CloudflareAccess,
}

pub open spec fn method_name(m: AuthMethod) -> Seq<char> {
    match m {
        AuthMethod::Password => "password"@,
        AuthMethod::CloudflareAccess => "cloudflare_access"@,
    }
}

impl AuthMethod {
    /// The name of the method in responses, claims and session rows.
    pub fn name(self) -> (r: &'static str)
        ensures
            r@ == method_name(self),
    {
        match self {
            AuthMethod::Password => "password",
            AuthMethod::CloudflareAccess => "cloudflare_access",
        }
    }
}

/// Verified by the runtime adapter. This is not a client API input type.
#[derive(Clone, Debug)]
pub struct VerifiedIdentity {
    pub subject: String,
    pub username: String,
    pub expires_at: u64,
}

/// The refresh cookie: `__Host-` prefixed and `Secure` on HTTPS, always `HttpOnly` and
/// `SameSite=Strict`, with a lifetime of `max_age` seconds.
pub open spec fn cookie_text(token: Seq<char>, secure: bool, max_age: u64) -> Seq<char> {
    (if secure {
        "__Host-folio_refresh"@
    } else {
        "folio_refresh"@
    }) + "="@ + token + "; Path=/; HttpOnly; SameSite=Strict; Max-Age="@ + decimal(max_age as nat)
        + (if secure {
        "; Secure"@
    } else {
        ""@
    })
}

/// The `Set-Cookie` value of a refresh token (see `cookie_text`).
pub fn cookie(token: &str, secure: bool, max_age: u64) -> (r: String)
    ensures
        r@ == cookie_text(token@, secure, max_age),
{
    let mut out = if secure {
        "__Host-folio_refresh".to_owned()
    } else {
        "folio_refresh".to_owned()
    };
    push_str(&mut out, "=");
    push_str(&mut out, token);
    push_str(&mut out, "; Path=/; HttpOnly; SameSite=Strict; Max-Age=");
    push_decimal(&mut out, max_age);
    if secure {
        push_str(&mut out, "; Secure");
    } else {
        push_str(&mut out, "");
    }
    out
}

/// An identity from the runtime adapter is usable while it names a subject and a user and has
/// not expired.
pub open spec fn identity_ok(id: VerifiedIdentity, now: u64) -> bool {
    id.subject@.len() > 0 && id.username@.len() > 0 && id.expires_at > now
}

pub open spec fn access_required_message() -> Seq<char> {
    "Sign in with Cloudflare Access to continue."@
}

/// The Cloudflare Access identity of a request, or 401 when there is none that is usable.
pub fn external_identity(identity: &Option<VerifiedIdentity>, now: u64) -> (r: Result<
    &VerifiedIdentity,
    Failure,
>)
    ensures
        match identity {
            Some(id) => if identity_ok(*id, now) {
                r matches Ok(x) && *x == *id
            } else {
                r matches Err(f) && f.status == 401 && f.message@ == access_required_message()
            },
            None => r matches Err(f) && f.status == 401 && f.message@ == access_required_message(),
        },
{
    match identity {
        Some(id) => {
            if !id.subject.as_str().is_empty() && !id.username.as_str().is_empty() && id.expires_at
                > now {
                Ok(id)
            } else {
                Err(fail(401, "Sign in with Cloudflare Access to continue."))
            }
        },
        None => Err(fail(401, "Sign in with Cloudflare Access to continue.")),
    }
}

/// What a request with valid access-token claims is still refused for: with Cloudflare Access,
/// a missing identity (401) or one for another subject (401); for any write, a CSRF token that
/// differs from the claims (403).
pub open spec fn authorization(method: AuthMethod, now: u64, req: Request, claims: Claims) -> Option<
    (u16, Seq<char>),
> {
    if method == AuthMethod::CloudflareAccess && !(req.identity is Some && identity_ok(
        req.identity->0,
        now,
    )) {
        Some((401u16, access_required_message()))
    } else if method == AuthMethod::CloudflareAccess && req.identity->0.subject@ != claims.sub@ {
        Some((401u16, "Identity changed. Sign in again."@))
    } else if req.method@ != "GET"@ && claims.csrf@ != req.csrf@ {
        Some((403u16, "Invalid security token. Sign in again."@))
    } else {
        None
    }
}

/// Authorizes a request whose access token gave `claims` (already checked for signature,
/// lifetime and provider).
pub fn authorize(method: AuthMethod, now: u64, req: &Request, claims: Claims) -> (r: Result<
    Claims,
    Failure,
>)
    ensures
        match authorization(method, now, *req, claims) {
            None => r matches Ok(c) && c == claims,
            Some(e) => r matches Err(f) && f.status == e.0 && f.message@ == e.1,
        },
{
    if method == AuthMethod::CloudflareAccess {
        let id = external_identity(&req.identity, now)?;
        if !equal(id.subject.as_str(), claims.sub.as_str()) {
            return Err(fail(401, "Identity changed. Sign in again."));
        }
    }
    let m = chars_of(req.method.as_str());
    if !eq_lit(m.as_slice(), "GET") && !equal(claims.csrf.as_str(), req.csrf.as_str()) {
        return Err(fail(403, "Invalid security token. Sign in again."));
    }
    Ok(claims)
}

pub open spec fn credentials_message() -> Seq<char> {
    "Enter a username and password."@
}

/// The trimmed user name of a setup or login request, or 400 when it is empty or over 80 bytes,
/// or the password is over 1024 bytes.
pub fn credentials(username: &str, password: &str) -> (r: Result<String, Failure>)
    ensures
        ({
            let u = trim(username@);
            if u.len() == 0 || utf8_len(u) > 80 || utf8_len(password@) > 1024 {
                r matches Err(f) && f.status == 400 && f.message@ == credentials_message()
            } else {
                r matches Ok(s) && s@ == u
            }
        }),
{
    let raw = chars_of(username);
    let u = trim_vec(raw.as_slice());
    let p = chars_of(password);
    if u.len() == 0 || !utf8_len_at_most(u.as_slice(), 80) || !utf8_len_at_most(p.as_slice(), 1024) {
        return Err(fail(400, "Enter a username and password."));
    }
    Ok(crate::text::string_of(u.as_slice()))
}

/// Why first-account setup is refused: an account exists (409); on Cloudflare, no setup secret
/// of at least 24 bytes is configured (503) or the request's token differs from it (403); a
/// password of fewer than 12 characters (400).
pub open spec fn setup_refusal(
    account_exists: bool,
    cloudflare: bool,
    secret: Option<Seq<char>>,
    token: Seq<char>,
    password: Seq<char>,
) -> Option<(u16, Seq<char>)> {
    if account_exists {
        Some((409u16, "This workspace is already configured."@))
    } else if cloudflare && !(secret is Some && utf8_len(secret->0) >= 24) {
        Some((503u16, "Configure the FOLIO_SETUP_TOKEN Worker secret before initial setup."@))
    } else if cloudflare && secret->0 != token {
        Some((403u16, "The setup token is incorrect."@))
    } else if password.len() < 12 {
        Some((400u16, "Use a password with at least 12 characters."@))
    } else {
        None
    }
}

/// Admits or refuses first-account setup (see `setup_refusal`).
pub fn setup_gate(
    account_exists: bool,
    runtime: &str,
    secret: &Option<String>,
    token: &str,
    password: &str,
) -> (r: Result<(), Failure>)
    ensures
        match setup_refusal(
            account_exists,
            runtime@ == "cloudflare"@,
            match secret {
                Some(s) => Some(s@),
                None => None,
            },
            token@,
            password@,
        ) {
            None => r is Ok,
            Some(e) => r matches Err(f) && f.status == e.0 && f.message@ == e.1,
        },
{
    if account_exists {
        return Err(fail(409, "This workspace is already configured."));
    }
    let rt = chars_of(runtime);
    if eq_lit(rt.as_slice(), "cloudflare") {
        match secret {
            Some(s) => {
                let sv = chars_of(s.as_str());
                if utf8_len_at_most(sv.as_slice(), 23) {
                    return Err(
                        fail(503, "Configure the FOLIO_SETUP_TOKEN Worker secret before initial setup."),
                    );
                }
                if !equal(s.as_str(), token) {
                    return Err(fail(403, "The setup token is incorrect."));
                }
            },
            None => {
                return Err(
                    fail(503, "Configure the FOLIO_SETUP_TOKEN Worker secret before initial setup."),
                );
            },
        }
    }
    let p = chars_of(password);
    if p.len() < 12 {
        return Err(fail(400, "Use a password with at least 12 characters."));
    }
    Ok(())
}

/// At most ten login attempts per client in a 15-minute window; a missing count counts as too many.
pub fn attempts_gate(count: Option<u64>) -> (r: Result<(), Failure>)
    ensures
        (match count {
            Some(n) => n,
            None => 100,
        }) > 10 <==> r is Err,
        r matches Err(f) ==> f.status == 429 && f.message@
            == "Too many attempts. Try again in 15 minutes."@,
{
    let n = match count {
        Some(n) => n,
        None => 100,
    };
    if n > 10 {
        return Err(fail(429, "Too many attempts. Try again in 15 minutes."));
    }
    Ok(())
}

pub open spec fn login_refused_message() -> Seq<char> {
    "Incorrect username or password."@
}

/// The outcome of a login given the stored account's user name (if any) and the password check:
/// `Ok(upgrade)` when the user names match and the password was accepted (`upgrade` when the
/// stored hash is a legacy one), else 401.
pub fn login_decision(account: &Option<String>, username: &str, verification: Option<bool>) -> (r:
    Result<bool, Failure>)
    ensures
        match account {
            None => r matches Err(f) && f.status == 401 && f.message@ == login_refused_message(),
            Some(a) => if a@ == username@ && verification is Some {
                r == Ok::<bool, Failure>(verification->0)
            } else {
                r matches Err(f) && f.status == 401 && f.message@ == login_refused_message()
            },
        },
{
    match account {
        None => Err(fail(401, "Incorrect username or password.")),
        Some(a) => {
            if !equal(username, a.as_str()) || verification.is_none() {
                return Err(fail(401, "Incorrect username or password."));
            }
            match verification {
                Some(upgrade) => Ok(upgrade),
                None => Err(fail(401, "Incorrect username or password.")),
            }
        },
    }
}

/// Refresh is a cookie-authenticated write: it needs an explicit same-origin request (403) and a
/// 72-byte refresh token (401).
pub open spec fn refresh_refusal(req: Request) -> Option<(u16, Seq<char>)> {
    if !(req.origin is Some && req.origin->0@ == req.expected_origin@) || req.expected_origin@.len()
        == 0 {
        Some((403u16, "Cross-origin refresh rejected"@))
    } else if utf8_len(req.session@) != 72 {
        Some((401u16, "Please sign in again."@))
    } else {
        None
    }
}

pub fn refresh_gate(req: &Request) -> (r: Result<(), Failure>)
    ensures
        match refresh_refusal(*req) {
            None => r is Ok,
            Some(e) => r matches Err(f) && f.status == e.0 && f.message@ == e.1,
        },
{
    let ev = chars_of(req.expected_origin.as_str());
    let same = match &req.origin {
        Some(o) => {
            let ov = chars_of(o.as_str());
            crate::text::eq_chars(ov.as_slice(), ev.as_slice())
        },
        None => false,
    };
    if !same || ev.len() == 0 {
        return Err(fail(403, "Cross-origin refresh rejected"));
    }
    let s = chars_of(req.session.as_str());
    if !utf8_len_at_most(s.as_slice(), 72) || utf8_len_at_most(s.as_slice(), 71) {
        return Err(fail(401, "Please sign in again."));
    }
    Ok(())
}

/// The lifetime of a refresh cookie in seconds: what is left of the session, never negative.
pub open spec fn refresh_max_age(expires_at: u64, now: u64) -> u64 {
    (if expires_at > now {
        expires_at - now
    } else {
        0
    }) as u64 / 1000
}

pub fn refresh_cookie(token: &str, secure: bool, expires_at: u64, now: u64) -> (r: String)
    ensures
        r@ == cookie_text(token@, secure, refresh_max_age(expires_at, now)),
{
    cookie(token, secure, expires_at.saturating_sub(now) / 1000)
}

/// The subject a session belongs to: the Access identity's subject, or the local owner.
pub open spec fn local_owner() -> Seq<char> {
    "local-owner"@
}

/// A refresh token made of two UUIDs: the first, then the second.
pub fn refresh_token_of(first: &str, second: &str) -> (r: String)
    ensures
        r@ == first@ + second@,
{
    let mut t = String::new();
    push_str(&mut t, first);
    push_str(&mut t, second);
    proof {
        assert(t@ =~= first@ + second@);
    }
    t
}

/// The shape of every refresh token: two hyphenated version-4 UUIDs, 72 ASCII characters.
pub open spec fn refresh_token_shape(t: Seq<char>) -> bool {
    &&& t.len() == 72
    &&& utf8_len(t) == 72
    &&& uuid_v4_text(t.take(36))
    &&& uuid_v4_text(t.skip(36))
}

/// A new refresh token: two random UUIDs drawn one after the other (see `refresh_token_of`).
/// Which UUIDs come back is left open: they are random.
pub fn new_refresh_token() -> (r: String)
    ensures
        refresh_token_shape(r@),
{
    let a = uid();
    let b = uid();
    let t = refresh_token_of(a.as_str(), b.as_str());
    proof {
        assert(t@.take(36) =~= a@);
        assert(t@.skip(36) =~= b@);
        assert forall|i: int| 0 <= i < t@.len() implies (#[trigger] t@[i] as u32) < 0x80 by {
            if i < 36 {
                assert(t@[i] == a@[i]);
                assert(crate::crypto::lower_hex_char(a@[i]) || a@[i] == '-');
            } else {
                assert(t@[i] == b@[i - 36]);
                assert(crate::crypto::lower_hex_char(b@[i - 36]) || b@[i - 36] == '-');
            }
        }
        lemma_ascii_utf8_len(t@);
    }
    t
}

proof fn lemma_ascii_utf8_len(s: Seq<char>)
    requires
        forall|i: int| 0 <= i < s.len() ==> (#[trigger] s[i] as u32) < 0x80,
    ensures
        utf8_len(s) == s.len(),
    decreases s.len(),
{
    if s.len() > 0 {
        lemma_ascii_utf8_len(s.drop_last());
    }
}

} // verus!
