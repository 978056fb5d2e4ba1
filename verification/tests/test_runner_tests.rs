use http_util::test_runner::is_supported;
use http_util::test_runner::is_remote_url;
use http_util::test_runner::partition_includes;

#[test]
fn test_is_supported() {
    assert!(is_supported("tests/subdir/foo_test.ts"));
    assert!(is_supported("tests/subdir/foo_test.tsx"));
    assert!(is_supported("tests/subdir/foo_test.js"));
    assert!(is_supported("tests/subdir/foo_test.jsx"));
    assert!(is_supported("bar/foo.test.ts"));
    assert!(is_supported("bar/foo.test.tsx"));
    assert!(is_supported("bar/foo.test.js"));
    assert!(is_supported("bar/foo.test.jsx"));
    assert!(is_supported("foo/bar/test.js"));
    assert!(is_supported("foo/bar/test.jsx"));
    assert!(is_supported("foo/bar/test.ts"));
    assert!(is_supported("foo/bar/test.tsx"));
    assert!(!is_supported("README.md"));
    assert!(!is_supported("lib/typescript.d.ts"));
    assert!(!is_supported("notatest.js"));
    assert!(!is_supported("NotAtest.ts"));
}

#[test]
fn mjs_modules_are_supported() {
    assert!(is_supported("a/b_test.mjs"));
    assert!(is_supported("a/b.test.mjs"));
    assert!(is_supported("a/test.mjs"));
    assert!(!is_supported("a/b.mjs"));
}

#[test]
fn bare_names_count_as_their_own_basename() {
    assert!(is_supported("test.ts"));
    assert!(is_supported("foo_test.js"));
    assert!(!is_supported("attest.ts"));
}

#[test]
fn remote_urls_are_recognized() {
    assert!(is_remote_url("http://example.com/colors_test.ts"));
    assert!(is_remote_url("https://example.com/colors_test.ts"));
    assert!(!is_remote_url("./mod1.ts"));
    assert!(!is_remote_url("subdir2/mod2.ts"));
    assert!(!is_remote_url("httpx://nope"));
}

#[test]
fn partition_keeps_order_of_both_sides() {
    let entries: Vec<String> = vec![
        "https://example.com/colors_test.ts".to_string(),
        "./mod1.ts".to_string(),
        "./mod3.js".to_string(),
        "subdir2/mod2.ts".to_string(),
        "http://example.com/printf_test.ts".to_string(),
    ];
    let (paths, urls) = partition_includes(&entries);
    assert_eq!(
        paths,
        vec!["./mod1.ts".to_string(), "./mod3.js".to_string(), "subdir2/mod2.ts".to_string()]
    );
    assert_eq!(
        urls,
        vec![
            "https://example.com/colors_test.ts".to_string(),
            "http://example.com/printf_test.ts".to_string()
        ]
    );
}

#[test]
fn partition_of_nothing_is_empty() {
    let (paths, urls) = partition_includes(&Vec::new());
    assert!(paths.is_empty());
    assert!(urls.is_empty());
}
