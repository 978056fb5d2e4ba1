//! A response-header snapshot: names are case-insensitive and held once;
//! a name the transport delivered several times carries its values joined
//! with commas, in delivery order. Viewed as a map from the case-folded
//! name to the joined value.

use vstd::prelude::*;
use vstd::string::*;
use crate::strutil::lower_seq;
use crate::strutil::str_eq_lower;

verus! {

/// No two entries share a case-folded name.
pub open spec fn unique_lower_keys(entries: Seq<(String, String)>) -> bool {
    forall|i: int, j: int|
        0 <= i < j < entries.len() ==> lower_seq(entries[i].0@) != lower_seq(entries[j].0@)
}

/// The map that a run of raw `(name, value)` pairs collapses to: each pair
/// in turn either starts a new key or extends an existing one with
/// `,value`.
pub open spec fn spec_collapse(raw: Seq<(String, String)>) -> Map<Seq<char>, Seq<char>>
    decreases raw.len(),
{
    if raw.len() == 0 {
        Map::empty()
    } else {
        let m = spec_collapse(raw.drop_last());
        let k = lower_seq(raw.last().0@);
        let v = raw.last().1@;
        if m.contains_key(k) {
            m.insert(k, m[k] + ","@ + v)
        } else {
            m.insert(k, v)
        }
    }
}

/// The map a unique-keyed entry list denotes.
spec fn assoc_view(entries: Seq<(String, String)>) -> Map<Seq<char>, Seq<char>>
    decreases entries.len(),
{
    if entries.len() == 0 {
        Map::empty()
    } else {
        assoc_view(entries.drop_last()).insert(
            lower_seq(entries.last().0@),
            entries.last().1@,
        )
    }
}

proof fn lemma_assoc_contains(entries: Seq<(String, String)>, k: Seq<char>)
    ensures
        assoc_view(entries).contains_key(k) <==> exists|i: int|
            0 <= i < entries.len() && lower_seq(entries[i].0@) == k,
    decreases entries.len(),
{
    if entries.len() > 0 {
        lemma_assoc_contains(entries.drop_last(), k);
        if lower_seq(entries.last().0@) == k {
            assert(lower_seq(entries[entries.len() - 1].0@) == k);
        } else if assoc_view(entries).contains_key(k) {
            let i = choose|i: int|
                0 <= i < entries.len() - 1 && lower_seq(entries.drop_last()[i].0@) == k;
            assert(lower_seq(entries[i].0@) == k);
        } else {
            assert(forall|i: int|
                0 <= i < entries.len() - 1 ==> entries.drop_last()[i] == entries[i]);
        }
    }
}

proof fn lemma_assoc_value(entries: Seq<(String, String)>, i: int)
    requires
        unique_lower_keys(entries),
        0 <= i < entries.len(),
    ensures
        assoc_view(entries).contains_key(lower_seq(entries[i].0@)),
        assoc_view(entries)[lower_seq(entries[i].0@)] == entries[i].1@,
    decreases entries.len(),
{
    if i < entries.len() - 1 {
        assert(forall|x: int| 0 <= x < entries.len() - 1 ==> entries.drop_last()[x] == entries[x]);
        lemma_assoc_value(entries.drop_last(), i);
    }
}

proof fn lemma_assoc_update(entries: Seq<(String, String)>, i: int, p: (String, String))
    requires
        unique_lower_keys(entries),
        0 <= i < entries.len(),
        lower_seq(p.0@) == lower_seq(entries[i].0@),
    ensures
        assoc_view(entries.update(i, p)) == assoc_view(entries).insert(lower_seq(p.0@), p.1@),
        unique_lower_keys(entries.update(i, p)),
    decreases entries.len(),
{
    let upd = entries.update(i, p);
    assert(forall|x: int, y: int|
        0 <= x < y < upd.len() ==> lower_seq(upd[x].0@) != lower_seq(upd[y].0@));
    if i == entries.len() - 1 {
        assert(upd.drop_last() =~= entries.drop_last());
        assert(assoc_view(upd) =~= assoc_view(entries).insert(lower_seq(p.0@), p.1@));
    } else {
        assert(forall|x: int| 0 <= x < entries.len() - 1 ==> entries.drop_last()[x] == entries[x]);
        lemma_assoc_update(entries.drop_last(), i, p);
        assert(upd.drop_last() =~= entries.drop_last().update(i, p));
        assert(assoc_view(upd) =~= assoc_view(entries).insert(lower_seq(p.0@), p.1@));
    }
}

/// The headers of one response, collapsed to unique case-insensitive names.
#[derive(Debug, PartialEq)]
pub struct HeadersMap {
    entries: Vec<(String, String)>,
}

impl View for HeadersMap {
    type V = Map<Seq<char>, Seq<char>>;

    closed spec fn view(&self) -> Map<Seq<char>, Seq<char>> {
        assoc_view(self.entries@)
    }
}

impl HeadersMap {
    /// The stored entries keep one case-folded copy of each name.
    pub closed spec fn wf(&self) -> bool {
        unique_lower_keys(self.entries@)
    }

    pub fn new() -> (h: HeadersMap)
        ensures
            h.wf(),
            h@ == Map::<Seq<char>, Seq<char>>::empty(),
    {
        HeadersMap { entries: Vec::new() }
    }

    /// Takes one raw header line: a new name starts an entry, a repeated
    /// name (case-insensitively) gets `,value` appended.
    #[verifier::loop_isolation(false)]
    pub fn add_raw(&mut self, name: &String, value: &String)
        requires
            old(self).wf(),
        ensures
            final(self).wf(),
            final(self)@ == (if old(self)@.contains_key(lower_seq(name@)) {
                old(self)@.insert(
                    lower_seq(name@),
                    old(self)@[lower_seq(name@)] + ","@ + value@,
                )
            } else {
                old(self)@.insert(lower_seq(name@), value@)
            }),
    {
        let n = self.entries.len();
        let mut i: usize = 0;
        while i < n
            invariant
                n == self.entries@.len(),
                i <= n,
                self == old(self),
                forall|x: int| 0 <= x < i ==> lower_seq(self.entries@[x].0@) != lower_seq(name@),
            decreases n - i,
        {
            if str_eq_lower(self.entries[i].0.as_str(), name.as_str()) {
                let k = self.entries[i].0.clone();
                let joined = self.entries[i].1.clone().concat(",").concat(value.as_str());
                proof {
                    lemma_assoc_value(self.entries@, i as int);
                    lemma_assoc_update(
                        self.entries@,
                        i as int,
                        (k, joined),
                    );
                }
                self.entries[i] = (k, joined);
                return ;
            }
            i += 1;
        }
        proof {
            lemma_assoc_contains(self.entries@, lower_seq(name@));
        }
        self.entries.push((name.clone(), value.clone()));
        proof {
            assert(self.entries@.drop_last() =~= old(self).entries@);
            assert(forall|x: int|
                0 <= x < self.entries@.len() - 1 ==> self.entries@[x] == old(self).entries@[x]);
        }
    }

    /// Collapses the raw header lines of one response, in delivery order.
    #[verifier::loop_isolation(false)]
    pub fn from_raw(raw: &Vec<(String, String)>) -> (h: HeadersMap)
        ensures
            h.wf(),
            h@ == spec_collapse(raw@),
    {
        let n = raw.len();
        let mut h = HeadersMap::new();
        let mut i: usize = 0;
        while i < n
            invariant
                n == raw@.len(),
                i <= n,
                h.wf(),
                h@ == spec_collapse(raw@.subrange(0, i as int)),
            decreases n - i,
        {
            proof {
                assert(raw@.subrange(0, i + 1).drop_last() =~= raw@.subrange(0, i as int));
                assert(raw@.subrange(0, i + 1).last() == raw@[i as int]);
            }
            h.add_raw(&raw[i].0, &raw[i].1);
            i += 1;
        }
        proof {
            assert(raw@.subrange(0, n as int) =~= raw@);
        }
        h
    }

    /// Looks a name up, case-insensitively.
    #[verifier::loop_isolation(false)]
    pub fn get(&self, name: &str) -> (r: Option<String>)
        requires
            self.wf(),
        ensures
            match r {
                Some(v) => self@.contains_key(lower_seq(name@)) && v@ == self@[lower_seq(
                    name@,
                )],
                None => !self@.contains_key(lower_seq(name@)),
            },
    {
        let n = self.entries.len();
        let mut i: usize = 0;
        while i < n
            invariant
                n == self.entries@.len(),
                i <= n,
                self.wf(),
                forall|x: int| 0 <= x < i ==> lower_seq(self.entries@[x].0@) != lower_seq(name@),
            decreases n - i,
        {
            if str_eq_lower(self.entries[i].0.as_str(), name) {
                proof {
                    lemma_assoc_value(self.entries@, i as int);
                }
                return Some(self.entries[i].1.clone());
            }
            i += 1;
        }
        proof {
            lemma_assoc_contains(self.entries@, lower_seq(name@));
        }
        None
    }
}

} // verus!
