//! A plain model of an absolute `http`/`https` URL — scheme, host
//! (authority, port included), and path — with parsing from a string and
//! RFC 3986 style resolution of a `Location` header value against a base.

use vstd::prelude::*;
use vstd::string::*;
use crate::strutil::first_index_from;
use crate::strutil::last_index_of;
use crate::strutil::starts_with;
use crate::strutil::str_starts_with;
use crate::strutil::find_char;
use crate::strutil::rfind_char;
use crate::strutil::lemma_first_index_props;
use crate::strutil::lemma_first_index_none;
use crate::strutil::lemma_first_index_is;
use crate::strutil::lemma_first_index_shift;
use crate::strutil::lemma_last_index_props;

verus! {

/// An absolute URL, held as plain components. `host` is the whole
/// authority (a port stays inside it); `path` is either empty or begins
/// with `/`.
#[derive(Debug, PartialEq, Eq)]
pub struct Url {
    pub scheme: String,
    pub host: String,
    pub path: String,
}

/// The error a failed parse or resolution reports.
#[derive(Debug, Clone, Copy, PartialEq, Eq, Structural)]
pub enum UrlParseError {
    Malformed,
}

/// A scheme is nonempty and contains neither `:` nor `/`.
pub open spec fn valid_scheme(s: Seq<char>) -> bool {
    s.len() > 0 && first_index_from(s, ':', 0) is None && first_index_from(s, '/', 0) is None
}

/// A host is nonempty and contains no `/`.
pub open spec fn valid_host(h: Seq<char>) -> bool {
    h.len() > 0 && first_index_from(h, '/', 0) is None
}

/// A path is empty or begins with `/`.
pub open spec fn valid_path(p: Seq<char>) -> bool {
    p.len() == 0 || p[0] == '/'
}

/// How a URL string splits into components: the first `:` ends the scheme
/// and must be followed by `//`; the next `/` (if any) ends the host and
/// starts the path. `None` where no such split exists.
pub open spec fn spec_parse_url(s: Seq<char>) -> Option<(Seq<char>, Seq<char>, Seq<char>)> {
    match first_index_from(s, ':', 0) {
        None => None,
        Some(i) => {
            if i == 0 || i + 3 > s.len() {
                None
            } else if s[i + 1] != '/' || s[i + 2] != '/' {
                None
            } else if first_index_from(s.subrange(0, i), '/', 0) is Some {
                None
            } else {
                let rest = s.subrange(i + 3, s.len() as int);
                let j = match first_index_from(rest, '/', 0) {
                    None => rest.len() as int,
                    Some(j) => j,
                };
                if j == 0 {
                    None
                } else {
                    Some((s.subrange(0, i), rest.subrange(0, j), rest.subrange(j, rest.len() as int)))
                }
            }
        },
    }
}

/// The path up to (excluding) its last `/`; empty when there is none.
pub open spec fn dirname(p: Seq<char>) -> Seq<char> {
    match last_index_of(p, '/') {
        None => Seq::empty(),
        Some(i) => p.subrange(0, i),
    }
}

/// Where a `Location` value resolves against a base URL, as components:
/// an absolute location is parsed on its own; `//…` borrows the base's
/// scheme; `/…` replaces the whole path; anything else replaces the last
/// path segment. `None` where the location cannot be parsed.
pub open spec fn spec_resolve(base: Url, loc: Seq<char>) -> Option<(Seq<char>, Seq<char>, Seq<char>)> {
    if starts_with(loc, "http://"@) || starts_with(loc, "https://"@) {
        spec_parse_url(loc)
    } else if starts_with(loc, "//"@) {
        spec_parse_url(base.scheme@ + ":"@ + loc)
    } else if loc.len() > 0 && loc[0] == '/' {
        Some((base.scheme@, base.host@, loc))
    } else {
        Some((base.scheme@, base.host@, dirname(base.path@) + "/"@ + loc))
    }
}

impl Url {
    /// Component well-formedness; every constructor establishes it.
    pub open spec fn wf(&self) -> bool {
        valid_scheme(self.scheme@) && valid_host(self.host@) && valid_path(self.path@)
    }

    /// The textual form, `scheme://hostpath`.
    pub open spec fn serialized(&self) -> Seq<char> {
        self.scheme@ + "://"@ + self.host@ + self.path@
    }

    pub fn scheme(&self) -> (r: &str)
        ensures
            r@ == self.scheme@,
    {
        self.scheme.as_str()
    }

    pub fn host_str(&self) -> (r: &str)
        ensures
            r@ == self.host@,
    {
        self.host.as_str()
    }

    pub fn path(&self) -> (r: &str)
        ensures
            r@ == self.path@,
    {
        self.path.as_str()
    }

    /// A copy, field by field.
    pub fn duplicate(&self) -> (r: Url)
        ensures
            r == *self,
    {
        Url { scheme: self.scheme.clone(), host: self.host.clone(), path: self.path.clone() }
    }

    /// The textual form of the URL.
    pub fn as_string(&self) -> (r: String)
        ensures
            r@ == self.serialized(),
    {
        let r = String::from_str(self.scheme.as_str()).concat("://").concat(
            self.host.as_str(),
        ).concat(self.path.as_str());
        proof {
            assert(r@ =~= self.serialized());
        }
        r
    }

    /// Splits a URL string into its components, exactly as
    /// `spec_parse_url` describes.
    pub fn parse(s: &str) -> (r: Result<Url, UrlParseError>)
        ensures
            match r {
                Ok(u) => spec_parse_url(s@) == Some((u.scheme@, u.host@, u.path@)) && u.wf(),
                Err(_) => spec_parse_url(s@) is None,
            },
    {
        let n = s.unicode_len();
        let colon = match find_char(s, ':', 0) {
            Some(i) => i,
            None => {
                return Err(UrlParseError::Malformed);
            },
        };
        proof {
            lemma_first_index_props(s@, ':', 0);
        }
        if colon == 0 || n - colon < 3 {
            return Err(UrlParseError::Malformed);
        }
        if s.get_char(colon + 1) != '/' || s.get_char(colon + 2) != '/' {
            return Err(UrlParseError::Malformed);
        }
        let scheme_str = s.substring_char(0, colon);
        if let Some(_) = find_char(scheme_str, '/', 0) {
            return Err(UrlParseError::Malformed);
        }
        let rest_str = s.substring_char(colon + 3, n);
        let rest_len = n - (colon + 3);
        let j = match find_char(rest_str, '/', 0) {
            Some(j) => j,
            None => rest_len,
        };
        proof {
            lemma_first_index_props(rest_str@, '/', 0);
        }
        if j == 0 {
            return Err(UrlParseError::Malformed);
        }
        let host_str = rest_str.substring_char(0, j);
        let path_str = rest_str.substring_char(j, rest_len);
        let u = Url {
            scheme: String::from_str(scheme_str),
            host: String::from_str(host_str),
            path: String::from_str(path_str),
        };
        proof {
            // The scheme holds no `:`: the one at `colon` is the first.
            assert(forall|k: int| 0 <= k < colon ==> scheme_str@[k] == s@[k]);
            lemma_first_index_none(scheme_str@, ':', 0);
            // The host holds no `/`: the one at `j` (if any) is the first
            // in the remainder, and it also begins the path.
            assert(forall|k: int| 0 <= k < j ==> host_str@[k] == rest_str@[k]);
            lemma_first_index_none(host_str@, '/', 0);
            assert(u.wf());
        }
        Ok(u)
    }
}

/// Resolves a `Location` header value against the base URL in effect when
/// the redirect was received, per `spec_resolve`.
pub fn resolve_url_from_location(base: &Url, location: &str) -> (r: Result<Url, UrlParseError>)
    requires
        base.wf(),
    ensures
        match r {
            Ok(u) => spec_resolve(*base, location@) == Some((u.scheme@, u.host@, u.path@))
                && u.wf(),
            Err(_) => spec_resolve(*base, location@) is None,
        },
{
    if str_starts_with(location, "http://") || str_starts_with(location, "https://") {
        // Already absolute: parse it on its own; the base plays no part.
        Url::parse(location)
    } else if str_starts_with(location, "//") {
        // Network-path reference: borrow the base's scheme.
        let joined = String::from_str(base.scheme.as_str()).concat(":").concat(location);
        proof {
            assert(joined@ =~= base.scheme@ + ":"@ + location@);
        }
        Url::parse(joined.as_str())
    } else if location.unicode_len() > 0 && location.get_char(0) == '/' {
        // Absolute-path reference: the path is replaced whole.
        Ok(Url { scheme: base.scheme.clone(), host: base.host.clone(), path: String::from_str(location) })
    } else {
        // Relative-path reference: drop the last segment of the base's
        // path and append the location.
        let dir_end = rfind_char(base.path.as_str(), '/');
        proof {
            lemma_last_index_props(base.path@, '/');
        }
        let dir: &str = match dir_end {
            Some(i) => base.path.as_str().substring_char(0, i),
            None => base.path.as_str().substring_char(0, 0),
        };
        let joined = String::from_str(dir).concat("/").concat(location);
        let u = Url { scheme: base.scheme.clone(), host: base.host.clone(), path: joined };
        proof {
            reveal_strlit("/");
            assert(u.path@ =~= dirname(base.path@) + "/"@ + location@);
            if dirname(base.path@).len() > 0 {
                assert(u.path@[0] == base.path@[0]);
            } else {
                assert(u.path@[0] == '/');
            }
        }
        Ok(u)
    }
}

/// An absolute location resolves to itself, parsed verbatim: the base
/// plays no part in the outcome.
pub proof fn lemma_resolve_absolute(base1: Url, base2: Url, loc: Seq<char>)
    requires
        starts_with(loc, "http://"@) || starts_with(loc, "https://"@),
    ensures
        spec_resolve(base1, loc) == spec_parse_url(loc),
        spec_resolve(base1, loc) == spec_resolve(base2, loc),
{
}

/// A network-path location `//host…` takes its scheme from the base and
/// host and path from the location itself: the host runs to the first `/`
/// after the leading two, the path from there on.
pub proof fn lemma_resolve_network_path(base: Url, loc: Seq<char>)
    requires
        base.wf(),
        starts_with(loc, "//"@),
        !starts_with(loc, "http://"@),
        !starts_with(loc, "https://"@),
    ensures
        ({
            let hend = match first_index_from(loc, '/', 2) {
                None => loc.len() as int,
                Some(j) => j,
            };
            spec_resolve(base, loc) == if hend == 2 {
                None::<(Seq<char>, Seq<char>, Seq<char>)>
            } else {
                Some(
                    (
                        base.scheme@,
                        loc.subrange(2, hend),
                        loc.subrange(hend, loc.len() as int),
                    ),
                )
            }
        }),
{
    reveal_strlit("//");
    reveal_strlit(":");
    let joined = base.scheme@ + ":"@ + loc;
    let sl = base.scheme@.len() as int;
    assert("//"@.len() == 2 && "//"@[0] == '/' && "//"@[1] == '/');
    assert(loc.subrange(0, 2) == "//"@);
    assert(loc[0] == loc.subrange(0, 2)[0] && loc[1] == loc.subrange(0, 2)[1]);
    assert(loc[0] == '/' && loc[1] == '/');
    assert(joined[sl] == ':');
    lemma_first_index_props(base.scheme@, ':', 0);
    assert(forall|k: int| 0 <= k < sl ==> joined[k] == base.scheme@[k]);
    lemma_first_index_is(joined, ':', 0, sl);
    assert(joined.subrange(0, sl) =~= base.scheme@);
    let rest = joined.subrange(sl + 3, joined.len() as int);
    assert(rest =~= loc.subrange(2, loc.len() as int));
    lemma_first_index_props(loc, '/', 2);
    lemma_first_index_shift(loc, '/', 2);
    match first_index_from(loc, '/', 2) {
        Some(j) => {
            assert(first_index_from(rest, '/', 0) == Some(j - 2));
            if j > 2 {
                assert(rest.subrange(0, j - 2) =~= loc.subrange(2, j));
                assert(rest.subrange(j - 2, rest.len() as int) =~= loc.subrange(
                    j,
                    loc.len() as int,
                ));
            }
        },
        None => {
            assert(rest.subrange(0, rest.len() as int) =~= loc.subrange(2, loc.len() as int));
            assert(rest.subrange(rest.len() as int, rest.len() as int) =~= loc.subrange(
                loc.len() as int,
                loc.len() as int,
            ));
        },
    }
}

/// An absolute-path location `/…` keeps the base's scheme and host and
/// replaces the path exactly.
pub proof fn lemma_resolve_absolute_path(base: Url, loc: Seq<char>)
    requires
        !starts_with(loc, "http://"@),
        !starts_with(loc, "https://"@),
        !starts_with(loc, "//"@),
        loc.len() > 0,
        loc[0] == '/',
    ensures
        spec_resolve(base, loc) == Some((base.scheme@, base.host@, loc)),
{
}

/// A relative-path location keeps the base's scheme and host; the path
/// becomes the base path's directory prefix, a `/`, and the location.
pub proof fn lemma_resolve_relative(base: Url, loc: Seq<char>)
    requires
        !starts_with(loc, "http://"@),
        !starts_with(loc, "https://"@),
        !starts_with(loc, "//"@),
        loc.len() == 0 || loc[0] != '/',
    ensures
        spec_resolve(base, loc) == Some(
            (base.scheme@, base.host@, dirname(base.path@) + "/"@ + loc),
        ),
{
}

} // verus!
