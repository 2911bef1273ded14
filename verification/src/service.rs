//! The request the HTTP entrypoints hand to the application, and the checks every request passes.
use crate::auth::VerifiedIdentity;
use crate::failure::{fail, Failure};
use crate::note::MAX_REQUEST_BYTES;
use crate::text::{chars_of, eq_chars, eq_lit};
use vstd::prelude::*;

verus! {

/// One API request as the runtime adapter saw it.
#[derive(Clone, Debug, Default)]
pub struct Request {
    pub method: String,
    pub path: String,
    pub query: String,
    pub body: Vec<u8>,
    pub session: String,
    pub access_token: String,
    pub csrf: String,
    pub origin: Option<String>,
    pub expected_origin: String,
    pub client: String,
    pub setup_token: String,
    pub secure: bool,
    /// Set only by the trusted runtime authentication adapter, never request JSON.
    pub identity: Option<VerifiedIdentity>,
}

/// The unauthenticated health check.
pub open spec fn health_request(req: Request) -> bool {
    req.path@ == "/api/health"@ && req.method@ == "GET"@
}

pub fn is_health(req: &Request) -> (r: bool)
    ensures
        r == health_request(*req),
{
    let p = chars_of(req.path.as_str());
    let m = chars_of(req.method.as_str());
    eq_lit(p.as_slice(), "/api/health") && eq_lit(m.as_slice(), "GET")
}

pub open spec fn allowed_method(m: Seq<char>) -> bool {
    m == "GET"@ || m == "POST"@ || m == "PUT"@ || m == "DELETE"@
}

/// Why a request is refused before it is read: too large (413), an unknown method (405), or a
/// write from another origin (403).
pub open spec fn admission(req: Request) -> Option<(u16, Seq<char>)> {
    if req.body@.len() > MAX_REQUEST_BYTES {
        Some((413u16, "Request too large"@))
    } else if !allowed_method(req.method@) {
        Some((405u16, "Method not allowed"@))
    } else if req.method@ != "GET"@ && req.origin is Some && req.origin->0@ != req.expected_origin@ {
        Some((403u16, "Cross-origin write rejected"@))
    } else {
        None
    }
}

/// Accepts a request for reading, or refuses it (see `admission`).
pub fn admit_request(req: &Request) -> (r: Result<(), Failure>)
    ensures
        match admission(*req) {
            None => r is Ok,
            Some(e) => r matches Err(f) && f.status == e.0 && f.message@ == e.1,
        },
{
    if req.body.len() > MAX_REQUEST_BYTES {
        return Err(fail(413, "Request too large"));
    }
    let m = chars_of(req.method.as_str());
    if !(eq_lit(m.as_slice(), "GET") || eq_lit(m.as_slice(), "POST") || eq_lit(m.as_slice(), "PUT")
        || eq_lit(m.as_slice(), "DELETE")) {
        return Err(fail(405, "Method not allowed"));
    }
    if !eq_lit(m.as_slice(), "GET") {
        match &req.origin {
            Some(o) => {
                let ov = chars_of(o.as_str());
                let ev = chars_of(req.expected_origin.as_str());
                if !eq_chars(ov.as_slice(), ev.as_slice()) {
                    return Err(fail(403, "Cross-origin write rejected"));
                }
            },
            None => {},
        }
    }
    Ok(())
}

/// The `application/x-www-form-urlencoded` pairs of a query string.
pub uninterp spec fn form_pairs(query: Seq<char>) -> Seq<(Seq<char>, Seq<char>)>;

/// `url::form_urlencoded::parse`: the decoded name/value pairs of a query string, in order.
#[verifier::external_body]
pub fn parse_query(query: &str) -> (r: Vec<(String, String)>)
    ensures
        r.deep_view() == form_pairs(query@),
{
    url::form_urlencoded::parse(query.as_bytes()).into_owned().collect()
}

/// The value of the last pair named `key` (a later pair replaces an earlier one).
pub open spec fn lookup(pairs: Seq<(Seq<char>, Seq<char>)>, key: Seq<char>) -> Option<Seq<char>>
    decreases pairs.len(),
{
    if pairs.len() == 0 {
        None
    } else if pairs.last().0 == key {
        Some(pairs.last().1)
    } else {
        lookup(pairs.drop_last(), key)
    }
}

/// The query parameter `key` (see `lookup`).
pub fn query_get(pairs: &Vec<(String, String)>, key: &str) -> (r: Option<String>)
    ensures
        match lookup(pairs.deep_view(), key@) {
            Some(v) => r matches Some(s) && s@ == v,
            None => r is None,
        },
{
    let k = chars_of(key);
    let mut j: usize = pairs.len();
    let ghost all = pairs.deep_view();
    assert(all.take(j as int) =~= all);
    while j > 0
        invariant
            j <= pairs.len(),
            all == pairs.deep_view(),
            k@ == key@,
            lookup(all, key@) == lookup(all.take(j as int), key@),
        decreases j,
    {
        let name = chars_of(pairs[j - 1].0.as_str());
        assert(all[j - 1] == pairs@[j - 1].deep_view());
        assert(all[j - 1].0 == pairs@[j - 1].0@);
        assert(all[j - 1].1 == pairs@[j - 1].1@);
        assert(all.take(j as int).last() == all[j - 1]);
        assert(name@ == all[j - 1].0);
        if eq_chars(name.as_slice(), k.as_slice()) {
            return Some(pairs[j - 1].1.clone());
        }
        assert(all.take(j as int).drop_last() =~= all.take(j - 1));
        j = j - 1;
    }
    None
}

} // verus!
