//! Character-level string helpers: prefix/suffix tests, character search,
//! and ASCII case folding, each specified over the `Seq<char>` view.

use vstd::prelude::*;
use vstd::string::*;

verus! {

/// `p` is a prefix of `s`.
pub open spec fn starts_with(s: Seq<char>, p: Seq<char>) -> bool {
    p.len() <= s.len() && s.subrange(0, p.len() as int) == p
}

/// `p` is a suffix of `s`.
pub open spec fn ends_with(s: Seq<char>, p: Seq<char>) -> bool {
    p.len() <= s.len() && s.subrange(s.len() - p.len(), s.len() as int) == p
}

/// Index of the first occurrence of `c` in `s` at or after `from`.
pub open spec fn first_index_from(s: Seq<char>, c: char, from: int) -> Option<int>
    decreases s.len() - from,
{
    if from < 0 || from >= s.len() {
        None
    } else if s[from] == c {
        Some(from)
    } else {
        first_index_from(s, c, from + 1)
    }
}

/// Index of the last occurrence of `c` in `s`.
pub open spec fn last_index_of(s: Seq<char>, c: char) -> Option<int>
    decreases s.len(),
{
    if s.len() == 0 {
        None
    } else if s[s.len() - 1] == c {
        Some(s.len() - 1)
    } else {
        last_index_of(s.drop_last(), c)
    }
}

/// What `last_index_of` returns is an occurrence of `c`, and the latest one.
pub proof fn lemma_last_index_props(s: Seq<char>, c: char)
    ensures
        match last_index_of(s, c) {
            Some(i) => 0 <= i < s.len() && s[i] == c && (forall|k: int|
                i < k < s.len() ==> s[k] != c),
            None => forall|k: int| 0 <= k < s.len() ==> s[k] != c,
        },
    decreases s.len(),
{
    if s.len() > 0 && s[s.len() - 1] != c {
        lemma_last_index_props(s.drop_last(), c);
        assert(forall|k: int| 0 <= k < s.len() - 1 ==> s.drop_last()[k] == s[k]);
    }
}

/// ASCII upper-case letters fold to lower case; everything else is unchanged.
pub open spec fn lower_char(c: char) -> char {
    if 'A' <= c && c <= 'Z' {
        ((c as int) + 32) as char
    } else {
        c
    }
}

/// The string with every character case-folded by `lower_char`.
pub open spec fn lower_seq(s: Seq<char>) -> Seq<char> {
    s.map_values(|c: char| lower_char(c))
}

/// What `first_index_from` returns is an occurrence of `c`, and the
/// earliest one at or after `from`.
pub proof fn lemma_first_index_props(s: Seq<char>, c: char, from: int)
    requires
        0 <= from <= s.len(),
    ensures
        match first_index_from(s, c, from) {
            Some(i) => from <= i < s.len() && s[i] == c && (forall|k: int|
                from <= k < i ==> s[k] != c),
            None => forall|k: int| from <= k < s.len() ==> s[k] != c,
        },
    decreases s.len() - from,
{
    if from < s.len() && s[from] != c {
        lemma_first_index_props(s, c, from + 1);
    }
}

/// A string without `c` at or after `from` has no first occurrence.
pub proof fn lemma_first_index_none(s: Seq<char>, c: char, from: int)
    requires
        0 <= from <= s.len(),
        forall|k: int| from <= k < s.len() ==> s[k] != c,
    ensures
        first_index_from(s, c, from) is None,
    decreases s.len() - from,
{
    if from < s.len() {
        lemma_first_index_none(s, c, from + 1);
    }
}

/// An occurrence of `c` at `i` with none before it is the first occurrence.
pub proof fn lemma_first_index_is(s: Seq<char>, c: char, from: int, i: int)
    requires
        0 <= from <= i < s.len(),
        s[i] == c,
        forall|k: int| from <= k < i ==> s[k] != c,
    ensures
        first_index_from(s, c, from) == Some(i),
    decreases i - from,
{
    if from < i {
        lemma_first_index_is(s, c, from + 1, i);
    }
}

/// Searching a tail `s[a..]` finds the same occurrence as searching `s`
/// from `a`, shifted by `a`.
pub proof fn lemma_first_index_shift(s: Seq<char>, c: char, a: int)
    requires
        0 <= a <= s.len(),
    ensures
        match first_index_from(s, c, a) {
            Some(i) => first_index_from(s.subrange(a, s.len() as int), c, 0) == Some(i - a),
            None => first_index_from(s.subrange(a, s.len() as int), c, 0) is None,
        },
{
    let sub = s.subrange(a, s.len() as int);
    lemma_first_index_props(s, c, a);
    match first_index_from(s, c, a) {
        Some(i) => {
            assert(sub[i - a] == c);
            assert(forall|k: int| 0 <= k < i - a ==> sub[k] != c);
            if i - a < sub.len() {
                lemma_first_index_is(sub, c, 0, i - a);
            }
        },
        None => {
            assert(forall|k: int| 0 <= k < sub.len() ==> sub[k] != c);
            lemma_first_index_none(sub, c, 0);
        },
    }
}

pub fn str_starts_with(s: &str, p: &str) -> (b: bool)
    ensures
        b == starts_with(s@, p@),
{
    let n = p.unicode_len();
    if s.unicode_len() < n {
        return false;
    }
    let mut i: usize = 0;
    while i < n
        invariant
            n == p@.len(),
            n <= s@.len(),
            i <= n,
            forall|j: int| 0 <= j < i ==> s@[j] == p@[j],
        decreases n - i,
    {
        if s.get_char(i) != p.get_char(i) {
            assert(s@.subrange(0, p@.len() as int)[i as int] != p@[i as int]);
            return false;
        }
        i += 1;
    }
    assert(s@.subrange(0, p@.len() as int) =~= p@);
    true
}

pub fn str_ends_with(s: &str, p: &str) -> (b: bool)
    ensures
        b == ends_with(s@, p@),
{
    let n = p.unicode_len();
    let m = s.unicode_len();
    if m < n {
        return false;
    }
    let off: usize = m - n;
    let mut i: usize = 0;
    while i < n
        invariant
            n == p@.len(),
            m == s@.len(),
            n <= m,
            off == m - n,
            i <= n,
            forall|j: int| 0 <= j < i ==> s@[off + j] == p@[j],
        decreases n - i,
    {
        if s.get_char(off + i) != p.get_char(i) {
            assert(s@.subrange(s@.len() - p@.len(), s@.len() as int)[i as int] != p@[i as int]);
            return false;
        }
        i += 1;
    }
    assert(s@.subrange(s@.len() - p@.len(), s@.len() as int) =~= p@);
    true
}

pub fn str_eq(s: &str, p: &str) -> (b: bool)
    ensures
        b == (s@ == p@),
{
    let n = s.unicode_len();
    if p.unicode_len() != n {
        return false;
    }
    let mut i: usize = 0;
    while i < n
        invariant
            n == s@.len(),
            n == p@.len(),
            i <= n,
            forall|j: int| 0 <= j < i ==> s@[j] == p@[j],
        decreases n - i,
    {
        if s.get_char(i) != p.get_char(i) {
            return false;
        }
        i += 1;
    }
    assert(s@ =~= p@);
    true
}

pub fn char_to_lower(c: char) -> (r: char)
    ensures
        r == lower_char(c),
{
    if 'A' <= c && c <= 'Z' {
        let u: u32 = c as u32;
        let v: u32 = u + 32;
        let b: u8 = v as u8;
        proof {
            assert(v <= 122 ==> (v as u8) as u32 == v) by (bit_vector);
        }
        b as char
    } else {
        c
    }
}

/// Case-insensitive (ASCII) string equality.
pub fn str_eq_lower(s: &str, p: &str) -> (b: bool)
    ensures
        b == (lower_seq(s@) == lower_seq(p@)),
{
    let n = s.unicode_len();
    if p.unicode_len() != n {
        assert(lower_seq(s@).len() != lower_seq(p@).len());
        return false;
    }
    let mut i: usize = 0;
    while i < n
        invariant
            n == s@.len(),
            n == p@.len(),
            i <= n,
            forall|j: int| 0 <= j < i ==> lower_char(s@[j]) == lower_char(p@[j]),
        decreases n - i,
    {
        if char_to_lower(s.get_char(i)) != char_to_lower(p.get_char(i)) {
            assert(lower_seq(s@)[i as int] != lower_seq(p@)[i as int]);
            return false;
        }
        i += 1;
    }
    assert(lower_seq(s@) =~= lower_seq(p@));
    true
}

pub fn find_char(s: &str, c: char, from: usize) -> (r: Option<usize>)
    requires
        from <= s@.len(),
    ensures
        match r {
            Some(i) => first_index_from(s@, c, from as int) == Some(i as int),
            None => first_index_from(s@, c, from as int) is None,
        },
{
    let n = s.unicode_len();
    let mut i: usize = from;
    while i < n
        invariant
            n == s@.len(),
            from <= i <= n,
            first_index_from(s@, c, from as int) == first_index_from(s@, c, i as int),
        decreases n - i,
    {
        if s.get_char(i) == c {
            return Some(i);
        }
        assert(first_index_from(s@, c, i as int) == first_index_from(s@, c, i + 1));
        i += 1;
    }
    None
}

pub fn rfind_char(s: &str, c: char) -> (r: Option<usize>)
    ensures
        match r {
            Some(i) => last_index_of(s@, c) == Some(i as int),
            None => last_index_of(s@, c) is None,
        },
{
    let n = s.unicode_len();
    let mut i: usize = n;
    assert(s@.subrange(0, n as int) =~= s@);
    while i > 0
        invariant
            i <= n,
            n == s@.len(),
            last_index_of(s@, c) == last_index_of(s@.subrange(0, i as int), c),
        decreases i,
    {
        let ch = s.get_char(i - 1);
        proof {
            assert(s@.subrange(0, i as int).last() == s@[i - 1]);
            assert(s@.subrange(0, i as int).drop_last() =~= s@.subrange(0, i - 1));
        }
        if ch == c {
            return Some(i - 1);
        }
        i -= 1;
    }
    None
}

} // verus!
