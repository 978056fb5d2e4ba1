//! Classification of one HTTP response in a fetch-once exchange: a 304
//! answers a conditional request with "unchanged", a redirection status
//! resolves its `Location` against the requested URL without being
//! followed, an error status is reported with the URL and code, and
//! anything else carries a body.

use vstd::prelude::*;
use vstd::string::*;
use crate::headers::HeadersMap;
use crate::headers::spec_collapse;
use crate::strutil::lower_seq;
use crate::strutil::str_eq_lower;
use crate::urls::Url;
use crate::urls::spec_resolve;
use crate::urls::resolve_url_from_location;

verus! {

/// What one fetch pass yields: a full body with headers, a "cached copy
/// still valid" signal, or an unfollowed redirect destination with
/// headers.
#[derive(Debug, PartialEq)]
pub enum FetchOnceResult {
    Code(Vec<u8>, HeadersMap),
    NotModified,
    Redirect(Url, HeadersMap),
}

/// What a classified response asks the caller to do next: nothing, follow
/// up on a redirect, or read the body and wrap it in `Code`.
#[derive(Debug, PartialEq)]
pub enum FetchDecision {
    NotModified,
    Redirect(Url, HeadersMap),
    FetchBody(HeadersMap),
}

/// The failures a response itself can force.
#[derive(Debug, PartialEq)]
pub enum FetchError {
    /// A client- or server-error status answered the request.
    RemoteFailed { url: Url, status: u16 },
    /// A redirection status arrived without the mandatory `Location`.
    MissingLocation { url: Url },
    /// The `Location` value resolves to no URL.
    InvalidLocation { url: Url },
}

/// The redirection class, 3xx.
pub open spec fn is_redirect_status(status: u16) -> bool {
    300 <= status <= 399
}

/// The client- and server-error classes, 4xx and 5xx.
pub open spec fn is_error_status(status: u16) -> bool {
    400 <= status <= 599
}

/// The value of the first raw header line whose name case-folds to
/// `name`, as the transport delivered it.
pub open spec fn spec_first_header(raw: Seq<(String, String)>, name: Seq<char>) -> Option<
    Seq<char>,
>
    decreases raw.len(),
{
    if raw.len() == 0 {
        None
    } else if lower_seq(raw[0].0@) == lower_seq(name) {
        Some(raw[0].1@)
    } else {
        spec_first_header(raw.drop_first(), name)
    }
}

#[verifier::loop_isolation(false)]
fn first_header_value(raw: &Vec<(String, String)>, name: &str) -> (r: Option<String>)
    ensures
        match r {
            Some(v) => spec_first_header(raw@, name@) == Some(v@),
            None => spec_first_header(raw@, name@) is None,
        },
{
    let n = raw.len();
    let mut i: usize = 0;
    assert(raw@.skip(0) =~= raw@);
    while i < n
        invariant
            i <= n,
            spec_first_header(raw@, name@) == spec_first_header(raw@.skip(i as int), name@),
        decreases n - i,
    {
        proof {
            assert(raw@.skip(i as int)[0] == raw@[i as int]);
            assert(raw@.skip(i as int).drop_first() =~= raw@.skip(i + 1));
        }
        if str_eq_lower(raw[i].0.as_str(), name) {
            return Some(raw[i].1.clone());
        }
        i += 1;
    }
    None
}

/// Classifies one response of a fetch-once exchange by its status and raw
/// header lines. A 304 is answered at once, with nothing of the response
/// exposed; a 3xx must carry a `Location`, which is resolved against the
/// requested URL; a 4xx or 5xx fails with the URL and status; anything
/// else asks the caller to read the body.
pub fn classify_response(url: &Url, status: u16, raw_headers: &Vec<(String, String)>) -> (r:
    Result<FetchDecision, FetchError>)
    requires
        url.wf(),
    ensures
        status == 304 ==> r == Ok::<FetchDecision, FetchError>(FetchDecision::NotModified),
        is_redirect_status(status) && status != 304 ==> match spec_first_header(
            raw_headers@,
            "location"@,
        ) {
            None => r == Err::<FetchDecision, FetchError>(
                FetchError::MissingLocation { url: *url },
            ),
            Some(loc) => match spec_resolve(*url, loc) {
                None => r == Err::<FetchDecision, FetchError>(
                    FetchError::InvalidLocation { url: *url },
                ),
                Some(parts) => r matches Ok(FetchDecision::Redirect(t, h)) && t.wf() && (
                t.scheme@,
                t.host@,
                t.path@,
                ) == parts && h.wf() && h@ == spec_collapse(raw_headers@),
            },
        },
        is_error_status(status) ==> r == Err::<FetchDecision, FetchError>(
            FetchError::RemoteFailed { url: *url, status },
        ),
        !(status == 304) && !is_redirect_status(status) && !is_error_status(status) ==> (r
            matches Ok(FetchDecision::FetchBody(h)) && h.wf() && h@ == spec_collapse(
            raw_headers@,
        )),
{
    if status == 304 {
        return Ok(FetchDecision::NotModified);
    }
    let headers = HeadersMap::from_raw(raw_headers);
    if 300 <= status && status <= 399 {
        let loc = match first_header_value(raw_headers, "location") {
            None => {
                return Err(FetchError::MissingLocation { url: url.duplicate() });
            },
            Some(l) => l,
        };
        match resolve_url_from_location(url, loc.as_str()) {
            Ok(target) => {
                return Ok(FetchDecision::Redirect(target, headers));
            },
            Err(_) => {
                return Err(FetchError::InvalidLocation { url: url.duplicate() });
            },
        }
    }
    if 400 <= status && status <= 599 {
        return Err(FetchError::RemoteFailed { url: url.duplicate(), status });
    }
    Ok(FetchDecision::FetchBody(headers))
}

/// The request headers a cached validator adds: `If-None-Match` with the
/// validator, exactly when one is supplied.
pub fn conditional_request_headers(cached_etag: &Option<String>) -> (h: Vec<(String, String)>)
    ensures
        match cached_etag {
            Some(e) => h@.len() == 1 && h@[0].0@ == "if-none-match"@ && h@[0].1@ == e@,
            None => h@.len() == 0,
        },
{
    let mut h: Vec<(String, String)> = Vec::new();
    match cached_etag {
        Some(e) => {
            h.push((String::from_str("if-none-match"), e.clone()));
        },
        None => {},
    }
    h
}

} // verus!
