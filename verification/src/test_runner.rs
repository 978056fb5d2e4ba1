//! Which files the test runner takes, and how its list of requested
//! modules splits into local paths and remote URLs.

use vstd::prelude::*;
use vstd::string::*;
use crate::strutil::ends_with;
use crate::strutil::starts_with;
use crate::strutil::last_index_of;
use crate::strutil::str_ends_with;
use crate::strutil::str_eq;
use crate::strutil::str_starts_with;
use crate::strutil::rfind_char;
use crate::strutil::lemma_last_index_props;

verus! {

/// The part of a path after its last `/`; the whole path without one.
pub open spec fn spec_basename(p: Seq<char>) -> Seq<char> {
    match last_index_of(p, '/') {
        None => p,
        Some(i) => p.subrange(i + 1, p.len() as int),
    }
}

/// A path names a test module when its file name ends in `_test` or
/// `.test` before a script extension, or is plainly `test` with one.
pub open spec fn spec_is_supported(p: Seq<char>) -> bool {
    let b = spec_basename(p);
    ends_with(b, "_test.ts"@) || ends_with(b, "_test.tsx"@) || ends_with(b, "_test.js"@)
        || ends_with(b, "_test.mjs"@) || ends_with(b, "_test.jsx"@) || ends_with(
        b,
        ".test.ts"@,
    ) || ends_with(b, ".test.tsx"@) || ends_with(b, ".test.js"@) || ends_with(b, ".test.mjs"@)
        || ends_with(b, ".test.jsx"@) || b == "test.ts"@ || b == "test.tsx"@ || b == "test.js"@
        || b == "test.mjs"@ || b == "test.jsx"@
}

/// A requested module is remote when it is an absolute `http`/`https` URL.
pub open spec fn spec_is_remote_url(s: Seq<char>) -> bool {
    starts_with(s, "http://"@) || starts_with(s, "https://"@)
}

/// The requested modules that are local paths, in order.
pub open spec fn spec_local_includes(s: Seq<String>) -> Seq<String>
    decreases s.len(),
{
    if s.len() == 0 {
        Seq::empty()
    } else {
        let rest = spec_local_includes(s.drop_last());
        if spec_is_remote_url(s.last()@) {
            rest
        } else {
            rest.push(s.last())
        }
    }
}

/// The requested modules that are remote URLs, in order.
pub open spec fn spec_remote_includes(s: Seq<String>) -> Seq<String>
    decreases s.len(),
{
    if s.len() == 0 {
        Seq::empty()
    } else {
        let rest = spec_remote_includes(s.drop_last());
        if spec_is_remote_url(s.last()@) {
            rest.push(s.last())
        } else {
            rest
        }
    }
}

/// Whether the file at `path` is one the test runner picks up.
pub fn is_supported(path: &str) -> (b: bool)
    ensures
        b == spec_is_supported(path@),
{
    let n = path.unicode_len();
    let bi = rfind_char(path, '/');
    proof {
        lemma_last_index_props(path@, '/');
    }
    let name: &str = match bi {
        Some(i) => path.substring_char(i + 1, n),
        None => path,
    };
    str_ends_with(name, "_test.ts") || str_ends_with(name, "_test.tsx") || str_ends_with(
        name,
        "_test.js",
    ) || str_ends_with(name, "_test.mjs") || str_ends_with(name, "_test.jsx") || str_ends_with(
        name,
        ".test.ts",
    ) || str_ends_with(name, ".test.tsx") || str_ends_with(name, ".test.js") || str_ends_with(
        name,
        ".test.mjs",
    ) || str_ends_with(name, ".test.jsx") || str_eq(name, "test.ts") || str_eq(name, "test.tsx")
        || str_eq(name, "test.js") || str_eq(name, "test.mjs") || str_eq(name, "test.jsx")
}

/// Whether a requested module is a remote URL rather than a local path.
pub fn is_remote_url(url_str: &str) -> (b: bool)
    ensures
        b == spec_is_remote_url(url_str@),
{
    str_starts_with(url_str, "http://") || str_starts_with(url_str, "https://")
}

/// Splits the requested modules into (local paths, remote URLs), keeping
/// the order of each side.
#[verifier::loop_isolation(false)]
pub fn partition_includes(entries: &Vec<String>) -> (r: (Vec<String>, Vec<String>))
    ensures
        r.0@ == spec_local_includes(entries@),
        r.1@ == spec_remote_includes(entries@),
{
    let n = entries.len();
    let mut locals: Vec<String> = Vec::new();
    let mut remotes: Vec<String> = Vec::new();
    let mut i: usize = 0;
    while i < n
        invariant
            i <= n,
            locals@ == spec_local_includes(entries@.subrange(0, i as int)),
            remotes@ == spec_remote_includes(entries@.subrange(0, i as int)),
        decreases n - i,
    {
        proof {
            assert(entries@.subrange(0, i + 1).drop_last() =~= entries@.subrange(0, i as int));
            assert(entries@.subrange(0, i + 1).last() == entries@[i as int]);
        }
        if is_remote_url(entries[i].as_str()) {
            remotes.push(entries[i].clone());
        } else {
            locals.push(entries[i].clone());
        }
        i += 1;
    }
    proof {
        assert(entries@.subrange(0, n as int) =~= entries@);
    }
    (locals, remotes)
}

} // verus!
