use http_util::headers::HeadersMap;

fn raw(pairs: &[(&str, &str)]) -> Vec<(String, String)> {
    pairs.iter().map(|(k, v)| (k.to_string(), v.to_string())).collect()
}

#[test]
fn lookup_is_case_insensitive() {
    let h = HeadersMap::from_raw(&raw(&[("Content-Type", "application/json")]));
    assert_eq!(h.get("content-type").unwrap().as_str(), "application/json");
    assert_eq!(h.get("CONTENT-TYPE").unwrap().as_str(), "application/json");
    assert!(h.get("content-length").is_none());
}

#[test]
fn repeated_names_join_with_commas_in_order() {
    let h = HeadersMap::from_raw(&raw(&[
        ("Vary", "Accept"),
        ("vary", "Accept-Encoding"),
        ("VARY", "User-Agent"),
    ]));
    assert_eq!(h.get("vary").unwrap().as_str(), "Accept,Accept-Encoding,User-Agent");
}

#[test]
fn distinct_names_stay_distinct() {
    let h = HeadersMap::from_raw(&raw(&[
        ("etag", "33a64df551425fcc55e"),
        ("content-type", "application/typescript"),
    ]));
    assert_eq!(h.get("etag").unwrap().as_str(), "33a64df551425fcc55e");
    assert_eq!(h.get("content-type").unwrap().as_str(), "application/typescript");
}

#[test]
fn empty_raw_headers_give_an_empty_map() {
    let h = HeadersMap::from_raw(&Vec::new());
    assert!(h.get("anything").is_none());
}

#[test]
fn incremental_add_matches_collapse() {
    let mut h = HeadersMap::new();
    h.add_raw(&"Set-Thing".to_string(), &"a".to_string());
    h.add_raw(&"set-thing".to_string(), &"b".to_string());
    let collapsed = HeadersMap::from_raw(&raw(&[("Set-Thing", "a"), ("set-thing", "b")]));
    assert_eq!(h.get("set-thing").unwrap(), collapsed.get("set-thing").unwrap());
    assert_eq!(h.get("set-thing").unwrap().as_str(), "a,b");
}
