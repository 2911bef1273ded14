//! What the HTTP entrypoints read from request headers before the application sees a
//! request: the content type, the refresh cookie, the bearer token, the sign-in method
//! configured, and the origin a write must come from.
use crate::auth::AuthMethod;
use crate::failure::{fail, Failure};
use crate::order::str_eq;
use crate::text::{
    before_first, chars_of, eq_chars, eq_lit, slice_copy, split, split_vec, starts_with_chars,
    starts_with_lit, string_of, trim, trim_vec, views,
};
use vstd::prelude::*;

verus! {

/// The media type of a `Content-Type` header: what precedes the first `;`.
pub open spec fn media_type(content_type: Seq<char>) -> Seq<char> {
    before_first(content_type, ';')
}

/// A request other than `GET` must carry JSON.
pub open spec fn json_ok(method: Seq<char>, content_type: Seq<char>) -> bool {
    method == "GET"@ || media_type(content_type) == "application/json"@
}

/// Refuses a request other than `GET` whose body is not declared as JSON.
pub fn check_content_type(method: &str, content_type: &str) -> (r: Result<(), Failure>)
    ensures
        r is Err <==> !json_ok(method@, content_type@),
        r matches Err(e) ==> e.status == 415 && e.message@ == "Expected application/json"@,
{
    let m = chars_of(method);
    let v = chars_of(content_type);
    let media = match crate::text::first_index_vec(v.as_slice(), ';') {
        Some(k) => slice_copy(v.as_slice(), 0, k),
        None => slice_copy(v.as_slice(), 0, v.len()),
    };
    assert(media@ == media_type(content_type@));
    if !eq_lit(m.as_slice(), "GET") && !eq_lit(media.as_slice(), "application/json") {
        return Err(fail(415, "Expected application/json"));
    }
    Ok(())
}

/// The value of the first cookie, among the `;`-separated `parts`, whose trimmed text
/// starts with `prefix` (the cookie name and `=`); empty when there is none.
pub open spec fn cookie_in(parts: Seq<Seq<char>>, prefix: Seq<char>) -> Seq<char>
    decreases parts.len(),
{
    if parts.len() == 0 {
        Seq::empty()
    } else if prefix.is_prefix_of(trim(parts[0])) {
        trim(parts[0]).skip(prefix.len() as int)
    } else {
        cookie_in(parts.drop_first(), prefix)
    }
}

/// The value of the cookie that `prefix` (its name and `=`) names in a `Cookie` header.
pub fn cookie_value(header: &str, prefix: &str) -> (r: String)
    ensures
        r@ == cookie_in(split(header@, ';'), prefix@),
{
    let parts = split_vec(chars_of(header).as_slice(), ';');
    let p = chars_of(prefix);
    let mut i: usize = 0;
    assert(views(parts@).skip(0) =~= views(parts@));
    while i < parts.len()
        invariant
            i <= parts.len(),
            p@ == prefix@,
            views(parts@) == split(header@, ';'),
            cookie_in(split(header@, ';'), prefix@) == cookie_in(views(parts@).skip(i as int), prefix@),
        decreases parts.len() - i,
    {
        assert(views(parts@).skip(i as int)[0] == parts@[i as int]@);
        assert(views(parts@).skip(i as int).drop_first() =~= views(parts@).skip(i + 1));
        let t = trim_vec(parts[i].as_slice());
        if starts_with_chars(t.as_slice(), p.as_slice()) {
            let v = slice_copy(t.as_slice(), p.len(), t.len());
            assert(v@ =~= t@.skip(prefix@.len() as int));
            return string_of(v.as_slice());
        }
        i = i + 1;
    }
    String::new()
}

/// The refresh cookie's name and `=`: `__Host-` prefixed on HTTPS.
pub fn refresh_cookie_prefix(secure: bool) -> (r: &'static str)
    ensures
        r@ == (if secure {
            "__Host-folio_refresh="@
        } else {
            "folio_refresh="@
        }),
{
    if secure {
        "__Host-folio_refresh="
    } else {
        "folio_refresh="
    }
}

/// The token of an `Authorization: Bearer` header; empty for any other header.
pub open spec fn bearer_of(header: Seq<char>) -> Seq<char> {
    if "Bearer "@.is_prefix_of(header) {
        header.skip(7)
    } else {
        Seq::empty()
    }
}

/// The token of an `Authorization: Bearer` header (see `bearer_of`).
pub fn bearer_token(header: &str) -> (r: String)
    ensures
        r@ == bearer_of(header@),
{
    let v = chars_of(header);
    if starts_with_lit(v.as_slice(), "Bearer ") {
        proof {
            reveal_strlit("Bearer ");
        }
        let t = slice_copy(v.as_slice(), 7, v.len());
        assert(t@ =~= header@.skip(7));
        string_of(t.as_slice())
    } else {
        String::new()
    }
}

/// The sign-in method a deployment names: `password` or `cloudflare_access`.
pub open spec fn configured_method(name: Seq<char>) -> Option<AuthMethod> {
    if name == "password"@ {
        Some(AuthMethod::Password)
    } else if name == "cloudflare_access"@ {
        Some(AuthMethod::CloudflareAccess)
    } else {
        None
    }
}

/// The sign-in method a deployment names, or a refusal when it names none.
pub fn auth_method(name: &str) -> (r: Result<AuthMethod, Failure>)
    ensures
        match configured_method(name@) {
            Some(m) => r == Ok::<AuthMethod, Failure>(m),
            None => r matches Err(e) && e.status == 503 && e.message@ == "Authentication is not configured."@,
        },
{
    proof {
        reveal_strlit("password");
        reveal_strlit("cloudflare_access");
        assert("password"@.len() != "cloudflare_access"@.len());
    }
    if str_eq(name, "password") {
        Ok(AuthMethod::Password)
    } else if str_eq(name, "cloudflare_access") {
        Ok(AuthMethod::CloudflareAccess)
    } else {
        Err(fail(503, "Authentication is not configured."))
    }
}

/// The signing secret of a local server must have at least 64 bytes.
pub fn secret_long_enough(secret: &str) -> (r: bool)
    ensures
        r == (crate::text::utf8_len(secret@) >= 64),
{
    !crate::text::utf8_len_at_most(chars_of(secret).as_slice(), 63)
}

/// `s` with every leading copy of `p` removed (`str::trim_start_matches` with a string).
pub open spec fn strip_all(s: Seq<char>, p: Seq<char>) -> Seq<char>
    decreases s.len(),
{
    if p.len() > 0 && p.is_prefix_of(s) {
        strip_all(s.skip(p.len() as int), p)
    } else {
        s
    }
}

/// `s` with each occurrence of `from`, left to right, replaced by `to` (`str::replace`).
pub open spec fn replace_all(s: Seq<char>, from: Seq<char>, to: Seq<char>) -> Seq<char>
    decreases s.len(),
{
    if s.len() == 0 {
        s
    } else if from.len() > 0 && from.is_prefix_of(s) {
        to + replace_all(s.skip(from.len() as int), from, to)
    } else {
        seq![s[0]] + replace_all(s.drop_first(), from, to)
    }
}

fn strip_all_vec(s: &[char], p: &[char]) -> (r: Vec<char>)
    ensures
        r@ == strip_all(s@, p@),
{
    let mut i: usize = 0;
    assert(s@.skip(0) =~= s@);
    while p.len() > 0 && i <= s.len() && starts_with_chars(slice_copy(s, i, s.len()).as_slice(), p)
        invariant
            i <= s.len(),
            strip_all(s@, p@) == strip_all(s@.skip(i as int), p@),
        decreases s.len() - i,
    {
        proof {
            assert(s@.subrange(i as int, s@.len() as int) =~= s@.skip(i as int));
            assert(s@.skip(i as int).skip(p@.len() as int) =~= s@.skip(i + p@.len()));
        }
        i = i + p.len();
    }
    proof {
        if i <= s.len() {
            assert(s@.subrange(i as int, s@.len() as int) =~= s@.skip(i as int));
        }
    }
    slice_copy(s, i, s.len())
}

fn replace_all_vec(s: &[char], from: &[char], to: &[char]) -> (r: Vec<char>)
    ensures
        r@ == replace_all(s@, from@, to@),
{
    let mut out: Vec<char> = Vec::new();
    let mut i: usize = 0;
    assert(s@.skip(0) =~= s@);
    while i < s.len()
        invariant
            i <= s.len(),
            out@ + replace_all(s@.skip(i as int), from@, to@) == replace_all(s@, from@, to@),
        decreases s.len() - i,
    {
        let rest = slice_copy(s, i, s.len());
        assert(rest@ =~= s@.skip(i as int));
        if from.len() > 0 && starts_with_chars(rest.as_slice(), from) {
            let mut k: usize = 0;
            let ghost before = out@;
            while k < to.len()
                invariant
                    k <= to.len(),
                    out@ == before + to@.take(k as int),
                decreases to.len() - k,
            {
                out.push(to[k]);
                assert(to@.take(k + 1) =~= to@.take(k as int).push(to@[k as int]));
                k = k + 1;
            }
            assert(to@.take(to.len() as int) =~= to@);
            assert(s@.skip(i as int).skip(from@.len() as int) =~= s@.skip(i + from@.len()));
            assert(out@ + replace_all(s@.skip(i + from@.len()), from@, to@) =~= before + (to@
                + replace_all(s@.skip(i + from@.len()), from@, to@)));
            i = i + from.len();
        } else {
            let ghost before = out@;
            out.push(s[i]);
            assert(s@.skip(i as int).drop_first() =~= s@.skip(i + 1));
            assert(out@ + replace_all(s@.skip(i + 1), from@, to@) =~= before + (seq![s@[i as int]]
                + replace_all(s@.skip(i + 1), from@, to@)));
            i = i + 1;
        }
    }
    assert(s@.skip(i as int) =~= Seq::<char>::empty());
    assert(out@ + Seq::<char>::empty() =~= out@);
    out
}

/// The origin the local server expects writes from: the configured origin, or a browser
/// origin on the development proxy ports, or the configured origin as `localhost` when the
/// request addresses that host by name.
pub open spec fn local_origin(configured: Seq<char>, origin: Option<Seq<char>>, host: Seq<char>) -> Seq<char> {
    let by_host = host == replace_all(strip_all(configured, "http://"@), "127.0.0.1"@, "localhost"@);
    if by_host {
        replace_all(configured, "127.0.0.1"@, "localhost"@)
    } else {
        match origin {
            Some(o) => if o == "http://localhost:8080"@ || o == "http://127.0.0.1:8080"@ {
                o
            } else {
                configured
            },
            None => configured,
        }
    }
}

/// The origin the local server expects writes from (see `local_origin`).
pub fn expected_origin(configured: &str, origin: &Option<String>, host: &str) -> (r: String)
    ensures
        r@ == local_origin(configured@, match origin {
            Some(o) => Some(o@),
            None => None,
        }, host@),
{
    let c = chars_of(configured);
    let http = chars_of("http://");
    let lo = chars_of("127.0.0.1");
    let name = chars_of("localhost");
    let stripped = strip_all_vec(c.as_slice(), http.as_slice());
    let hosted = replace_all_vec(stripped.as_slice(), lo.as_slice(), name.as_slice());
    if eq_chars(chars_of(host).as_slice(), hosted.as_slice()) {
        let r = replace_all_vec(c.as_slice(), lo.as_slice(), name.as_slice());
        return string_of(r.as_slice());
    }
    match origin {
        Some(o) => {
            if str_eq(o.as_str(), "http://localhost:8080") || str_eq(o.as_str(), "http://127.0.0.1:8080") {
                o.clone()
            } else {
                configured.to_string()
            }
        },
        None => configured.to_string(),
    }
}

} // verus!
