//! Ordered, deduplicated path collections: the set of directory paths behind
//! the ensure/empty/remove intents, and the ordered path-to-bucket mapping
//! behind the cache intents.  Both keep their entries strictly sorted in
//! lexicographic byte order, so walking them by index visits paths in
//! ascending order and every path occurs at most once.

use vstd::prelude::*;

use crate::path::{bytes_eq, bytes_lt, lemma_lex_connected, lemma_lex_irrefl, lemma_lex_trans,
    lex_lt};

verus! {

/// Strict lexicographic ascending order; it implies all entries differ.
pub open spec fn strictly_sorted(s: Seq<Seq<u8>>) -> bool {
    forall|i: int, j: int| 0 <= i < j < s.len() ==> lex_lt(s[i], s[j])
}

/// A set of paths, stored as a strictly sorted vector.
pub struct DirSet {
    items: Vec<Vec<u8>>,
}

impl View for DirSet {
    type V = Seq<Seq<u8>>;

    closed spec fn view(&self) -> Seq<Seq<u8>> {
        Seq::new(self.items@.len(), |i: int| self.items@[i]@)
    }
}

impl DirSet {
    pub open spec fn wf(self) -> bool {
        strictly_sorted(self@)
    }

    /// The empty set.
    pub fn new() -> (r: DirSet)
        ensures
            r.wf(),
            r@.len() == 0,
    {
        DirSet { items: Vec::new() }
    }

    pub fn len(&self) -> (n: usize)
        ensures
            n == self@.len(),
    {
        self.items.len()
    }

    /// The `i`-th path in ascending order.
    pub fn index(&self, i: usize) -> (r: &Vec<u8>)
        requires
            i < self@.len(),
        ensures
            r@ == self@[i as int],
    {
        &self.items[i]
    }

    pub fn contains(&self, p: &Vec<u8>) -> (r: bool)
        ensures
            r == self@.contains(p@),
    {
        let mut i: usize = 0;
        while i < self.items.len()
            invariant
                i <= self.items.len(),
                forall|j: int| 0 <= j < i ==> self@[j] != p@,
            decreases self.items.len() - i,
        {
            if bytes_eq(&self.items[i], p) {
                assert(self@[i as int] == p@);
                return true;
            }
            i = i + 1;
        }
        false
    }

    /// Register `p`.  Registering a path already present changes nothing, so
    /// registering twice leaves the same set state as registering once.
    pub fn insert(&mut self, p: Vec<u8>) -> (inserted: bool)
        requires
            old(self).wf(),
        ensures
            final(self).wf(),
            inserted == !old(self)@.contains(p@),
            final(self)@.contains(p@),
            forall|q: Seq<u8>|
                final(self)@.contains(q) <==> old(self)@.contains(q) || q == p@,
            !inserted ==> final(self)@ == old(self)@,
            inserted ==> final(self)@ == old(self)@.insert(
                sorted_position(old(self)@, p@),
                p@,
            ),
    {
        let ghost s0 = self@;
        let mut i: usize = 0;
        while i < self.items.len() && bytes_lt(&self.items[i], &p)
            invariant
                i <= self.items.len(),
                self@ == s0,
                forall|j: int| 0 <= j < i ==> lex_lt(s0[j], p@),
            decreases self.items.len() - i,
        {
            i = i + 1;
        }
        proof {
            lemma_sorted_position(s0, p@, i as int);
        }
        if i < self.items.len() && bytes_eq(&self.items[i], &p) {
            proof {
                assert(s0[i as int] == p@);
                assert(old(self)@.contains(p@));
            }
            return false;
        }
        proof {
            assert forall|j: int| 0 <= j < s0.len() implies s0[j] != p@ by {
                if j < i {
                    if s0[j] == p@ {
                        lemma_lex_irrefl(p@);
                    }
                } else if j > i {
                    if s0[j] == p@ {
                        assert(lex_lt(s0[i as int], s0[j]));
                    }
                }
            }
            assert(!old(self)@.contains(p@));
            if i < s0.len() {
                if !lex_lt(p@, s0[i as int]) {
                    lemma_lex_connected(s0[i as int], p@);
                }
                assert(lex_lt(p@, s0[i as int]));
            }
        }
        self.items.insert(i, p);
        proof {
            let s1 = self@;
            assert(s1 =~= s0.insert(i as int, p@));
            assert forall|a: int, b: int| 0 <= a < b < s1.len() implies lex_lt(s1[a], s1[b]) by {
                if a == i && b > i + 1 {
                    lemma_lex_trans(p@, s0[i as int], s0[b - 1]);
                }
            }
            assert(s1[i as int] == p@);
            assert(final(self)@.contains(p@));
            assert forall|q: Seq<u8>| final(self)@.contains(q) implies old(self)@.contains(q) || q
                == p@ by {
                let k = choose|k: int| 0 <= k < s1.len() && s1[k] == q;
                if k < i {
                    assert(s0[k] == q);
                } else if k > i {
                    assert(s0[k - 1] == q);
                }
            }
            assert forall|q: Seq<u8>| old(self)@.contains(q) implies final(self)@.contains(q) by {
                let k = choose|k: int| 0 <= k < s0.len() && s0[k] == q;
                if k < i {
                    assert(s1[k] == q);
                } else {
                    assert(s1[k + 1] == q);
                }
            }
        }
        true
    }
}

/// Where a sorted insertion of `p` lands: the count of entries before `p`.
pub open spec fn sorted_position(s: Seq<Seq<u8>>, p: Seq<u8>) -> int
    decreases s.len(),
{
    if s.len() == 0 {
        0
    } else if lex_lt(s[0], p) {
        1 + sorted_position(s.drop_first(), p)
    } else {
        0
    }
}

proof fn lemma_sorted_position(s: Seq<Seq<u8>>, p: Seq<u8>, i: int)
    requires
        strictly_sorted(s),
        0 <= i <= s.len(),
        forall|j: int| 0 <= j < i ==> lex_lt(s[j], p),
        i < s.len() ==> !lex_lt(s[i], p),
    ensures
        sorted_position(s, p) == i,
    decreases s.len(),
{
    if s.len() > 0 {
        if i == 0 {
        } else {
            assert(lex_lt(s[0], p));
            let t = s.drop_first();
            assert(strictly_sorted(t)) by {
                assert forall|a: int, b: int| 0 <= a < b < t.len() implies lex_lt(t[a], t[b]) by {
                    assert(t[a] == s[a + 1] && t[b] == s[b + 1]);
                }
            }
            assert(forall|j: int| 0 <= j < i - 1 ==> t[j] == s[j + 1]);
            lemma_sorted_position(t, p, i - 1);
        }
    }
}

/// An ordered mapping from a path to a named cache bucket, stored as a
/// vector of pairs strictly sorted by path.
pub struct CacheMap {
    entries: Vec<(Vec<u8>, Vec<u8>)>,
}

impl View for CacheMap {
    type V = Seq<(Seq<u8>, Seq<u8>)>;

    closed spec fn view(&self) -> Seq<(Seq<u8>, Seq<u8>)> {
        Seq::new(self.entries@.len(), |i: int| (self.entries@[i].0@, self.entries@[i].1@))
    }
}

impl CacheMap {
    /// The paths alone, in ascending order.
    pub open spec fn keys(self) -> Seq<Seq<u8>> {
        Seq::new(self@.len(), |i: int| self@[i].0)
    }

    pub open spec fn wf(self) -> bool {
        strictly_sorted(self.keys())
    }

    /// The empty mapping.
    pub fn new() -> (r: CacheMap)
        ensures
            r.wf(),
            r@.len() == 0,
    {
        CacheMap { entries: Vec::new() }
    }

    pub fn len(&self) -> (n: usize)
        ensures
            n == self@.len(),
    {
        self.entries.len()
    }

    /// The `i`-th path in ascending order.
    pub fn key_at(&self, i: usize) -> (r: &Vec<u8>)
        requires
            i < self@.len(),
        ensures
            r@ == self@[i as int].0,
    {
        &self.entries[i].0
    }

    pub fn contains_key(&self, p: &Vec<u8>) -> (r: bool)
        ensures
            r == self.keys().contains(p@),
    {
        let mut i: usize = 0;
        while i < self.entries.len()
            invariant
                i <= self.entries.len(),
                forall|j: int| 0 <= j < i ==> self.keys()[j] != p@,
            decreases self.entries.len() - i,
        {
            if bytes_eq(&self.entries[i].0, p) {
                assert(self.keys()[i as int] == p@);
                return true;
            }
            i = i + 1;
        }
        false
    }

    /// Record the mapping from `p` to `bucket`.  Returns true when `p` was
    /// new; an already-registered path leaves the mapping untouched, whatever
    /// bucket it came with.
    pub fn insert(&mut self, p: Vec<u8>, bucket: Vec<u8>) -> (inserted: bool)
        requires
            old(self).wf(),
        ensures
            final(self).wf(),
            inserted == !old(self).keys().contains(p@),
            final(self).keys().contains(p@),
            forall|q: Seq<u8>|
                final(self).keys().contains(q) <==> old(self).keys().contains(q) || q == p@,
            !inserted ==> final(self)@ == old(self)@,
            inserted ==> final(self)@ == old(self)@.insert(
                sorted_position(old(self).keys(), p@),
                (p@, bucket@),
            ),
    {
        let ghost s0 = self@;
        let ghost k0 = old(self).keys();
        let mut i: usize = 0;
        while i < self.entries.len() && bytes_lt(&self.entries[i].0, &p)
            invariant
                i <= self.entries.len(),
                self@ == s0,
                self.keys() == k0,
                forall|j: int| 0 <= j < i ==> lex_lt(k0[j], p@),
            decreases self.entries.len() - i,
        {
            i = i + 1;
        }
        proof {
            lemma_sorted_position(k0, p@, i as int);
        }
        if i < self.entries.len() && bytes_eq(&self.entries[i].0, &p) {
            proof {
                assert(k0[i as int] == p@);
            }
            return false;
        }
        proof {
            assert forall|j: int| 0 <= j < k0.len() implies k0[j] != p@ by {
                if j < i {
                    if k0[j] == p@ {
                        lemma_lex_irrefl(p@);
                    }
                } else if j > i {
                    if k0[j] == p@ {
                        assert(lex_lt(k0[i as int], k0[j]));
                    }
                }
            }
            assert(!old(self).keys().contains(p@));
            if i < k0.len() {
                if !lex_lt(p@, k0[i as int]) {
                    lemma_lex_connected(k0[i as int], p@);
                }
                assert(lex_lt(p@, k0[i as int]));
            }
        }
        self.entries.insert(i, (p, bucket));
        proof {
            let s1 = self@;
            let k1 = self.keys();
            assert(s1 =~= s0.insert(i as int, (p@, bucket@)));
            assert(forall|j: int| 0 <= j < i ==> k1[j] == k0[j]);
            assert(k1[i as int] == p@);
            assert(forall|j: int| i < j < k1.len() ==> k1[j] == k0[j - 1]);
            assert forall|a: int, b: int| 0 <= a < b < k1.len() implies lex_lt(k1[a], k1[b]) by {
                if a == i && b > i + 1 {
                    lemma_lex_trans(p@, k0[i as int], k0[b - 1]);
                }
            }
            assert(k1[i as int] == p@);
            assert(final(self).keys().contains(p@));
            assert forall|q: Seq<u8>|
                final(self).keys().contains(q) implies old(self).keys().contains(q) || q == p@ by {
                let k = choose|k: int| 0 <= k < k1.len() && k1[k] == q;
                if k < i {
                    assert(k0[k] == q);
                } else if k > i {
                    assert(k0[k - 1] == q);
                }
            }
            assert forall|q: Seq<u8>|
                old(self).keys().contains(q) implies final(self).keys().contains(q) by {
                let k = choose|k: int| 0 <= k < k0.len() && k0[k] == q;
                if k < i {
                    assert(k1[k] == q);
                } else {
                    assert(k1[k + 1] == q);
                }
            }
        }
        true
    }
}

} // verus!
