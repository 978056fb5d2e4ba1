use http_util::fetch::FetchDecision;
use http_util::fetch::FetchError;
use http_util::fetch::FetchOnceResult;
use http_util::fetch::classify_response;
use http_util::fetch::conditional_request_headers;
use http_util::urls::Url;

fn raw(pairs: &[(&str, &str)]) -> Vec<(String, String)> {
    pairs.iter().map(|(k, v)| (k.to_string(), v.to_string())).collect()
}

#[test]
fn not_modified_exposes_nothing() {
    let url = Url::parse("http://deno.land/x").unwrap();
    let r = classify_response(&url, 304, &raw(&[("etag", "abc"), ("content-type", "text/plain")]));
    assert_eq!(r, Ok(FetchDecision::NotModified));
}

#[test]
fn redirect_resolves_location_against_base() {
    let url = Url::parse("http://h/x").unwrap();
    let r = classify_response(&url, 301, &raw(&[("location", "/y")])).unwrap();
    match r {
        FetchDecision::Redirect(target, headers) => {
            assert_eq!(target, Url::parse("http://h/y").unwrap());
            assert_eq!(headers.get("location").unwrap().as_str(), "/y");
        },
        _ => panic!(),
    }
}

#[test]
fn redirect_is_not_followed_and_carries_headers() {
    let url = Url::parse("http://127.0.0.1:4546/cli/tests/fixture.json").unwrap();
    let r = classify_response(
        &url,
        302,
        &raw(&[("location", "http://localhost:4545/cli/tests/fixture.json")]),
    )
    .unwrap();
    match r {
        FetchDecision::Redirect(target, _headers) => {
            assert_eq!(
                target,
                Url::parse("http://localhost:4545/cli/tests/fixture.json").unwrap()
            );
        },
        _ => panic!(),
    }
}

#[test]
fn redirect_without_location_is_a_protocol_violation() {
    let url = Url::parse("http://deno.land/x").unwrap();
    let r = classify_response(&url, 307, &raw(&[("server", "x")]));
    assert_eq!(r, Err(FetchError::MissingLocation { url: Url::parse("http://deno.land/x").unwrap() }));
}

#[test]
fn redirect_with_unresolvable_location_fails() {
    let url = Url::parse("http://deno.land/x").unwrap();
    let r = classify_response(&url, 301, &raw(&[("location", "http://")]));
    assert_eq!(r, Err(FetchError::InvalidLocation { url: Url::parse("http://deno.land/x").unwrap() }));
}

#[test]
fn client_error_is_reported_not_success() {
    let url = Url::parse("http://deno.land/missing").unwrap();
    let r = classify_response(&url, 404, &raw(&[("content-type", "text/html")]));
    assert_eq!(
        r,
        Err(FetchError::RemoteFailed { url: Url::parse("http://deno.land/missing").unwrap(), status: 404 })
    );
}

#[test]
fn server_error_is_reported_not_success() {
    let url = Url::parse("http://deno.land/broken").unwrap();
    let r = classify_response(&url, 500, &raw(&[]));
    assert_eq!(
        r,
        Err(FetchError::RemoteFailed { url: Url::parse("http://deno.land/broken").unwrap(), status: 500 })
    );
}

#[test]
fn success_collects_headers_for_the_body() {
    let url = Url::parse("http://deno.land/mod.ts").unwrap();
    let r = classify_response(
        &url,
        200,
        &raw(&[("Content-Type", "application/typescript"), ("ETag", "33a64df551425fcc55e")]),
    )
    .unwrap();
    match r {
        FetchDecision::FetchBody(headers) => {
            assert_eq!(headers.get("content-type").unwrap().as_str(), "application/typescript");
            assert_eq!(headers.get("etag").unwrap().as_str(), "33a64df551425fcc55e");
            assert!(headers.get("x-typescript-types").is_none());
        },
        _ => panic!(),
    }
}

#[test]
fn warning_header_is_readable_case_insensitively() {
    let url = Url::parse("http://deno.land/mod.ts").unwrap();
    let r = classify_response(&url, 200, &raw(&[("X-Deno-Warning", "module moved")])).unwrap();
    match r {
        FetchDecision::FetchBody(headers) => {
            assert_eq!(headers.get("x-deno-warning").unwrap().as_str(), "module moved");
        },
        _ => panic!(),
    }
}

#[test]
fn conditional_request_carries_the_validator() {
    let h = conditional_request_headers(&Some("33a64df551425fcc55e".to_string()));
    assert_eq!(h.len(), 1);
    assert_eq!(h[0].0.as_str(), "if-none-match");
    assert_eq!(h[0].1.as_str(), "33a64df551425fcc55e");
}

#[test]
fn no_validator_adds_no_header() {
    let h = conditional_request_headers(&None);
    assert!(h.is_empty());
}

#[test]
fn etag_round_trip_yields_unchanged() {
    // First pass: the body comes with a validator.
    let url = Url::parse("http://deno.land/etag_script.ts").unwrap();
    let first = classify_response(&url, 200, &raw(&[("etag", "33a64df551425fcc55e")])).unwrap();
    let etag = match first {
        FetchDecision::FetchBody(headers) => headers.get("etag").unwrap(),
        _ => panic!(),
    };
    // Second pass: the validator goes back out and the unchanged resource
    // answers 304, which classifies as NotModified.
    let sent = conditional_request_headers(&Some(etag));
    assert_eq!(sent[0].1.as_str(), "33a64df551425fcc55e");
    let second = classify_response(&url, 304, &raw(&[]));
    assert_eq!(second, Ok(FetchDecision::NotModified));
}

#[test]
fn fetch_once_result_distinguishes_variants() {
    let headers = http_util::headers::HeadersMap::from_raw(&raw(&[("content-type", "application/json")]));
    let code = FetchOnceResult::Code(vec![b'{', b'}'], headers);
    assert_ne!(code, FetchOnceResult::NotModified);
}
