//! The keyed connection registry behind the per-endpoint client pool.
//!
//! Connections are constructed lazily and cached by endpoint key; at most
//! one entry ever exists per key, and a late constructor's candidate is
//! discarded in favour of the entry already present, so a race between
//! concurrent constructions collapses to one winner.  The caller serializes
//! access (an exclusive lock around `get_or_insert`); this registry is the
//! single point of truth it protects.

use vstd::prelude::*;

use crate::chars::str_eq;

verus! {

/// First index holding `key`, if any.
pub open spec fn spec_key_index<C>(s: Seq<(String, C)>, key: Seq<char>) -> Option<int>
    decreases s.len(),
{
    if s.len() == 0 {
        None
    } else if s[0].0@ == key {
        Some(0)
    } else {
        match spec_key_index(s.drop_first(), key) {
            Some(i) => Some(i + 1),
            None => None,
        }
    }
}

pub proof fn lemma_key_index<C>(s: Seq<(String, C)>, key: Seq<char>)
    ensures
        match spec_key_index(s, key) {
            Some(i) => 0 <= i < s.len() && s[i].0@ == key && forall|j: int|
                0 <= j < i ==> s[j].0@ != key,
            None => forall|j: int| 0 <= j < s.len() ==> s[j].0@ != key,
        },
    decreases s.len(),
{
    if s.len() > 0 && s[0].0@ != key {
        let t = s.drop_first();
        lemma_key_index(t, key);
        match spec_key_index(t, key) {
            Some(i) => {
                assert(s[i + 1] == t[i]);
                assert forall|j: int| 0 <= j < i + 1 implies s[j].0@ != key by {
                    if j > 0 {
                        assert(t[j - 1].0@ != key);
                        assert(s[j] == t[j - 1]);
                    }
                }
            },
            None => {
                assert forall|j: int| 0 <= j < s.len() implies s[j].0@ != key by {
                    if j > 0 {
                        assert(t[j - 1].0@ != key);
                        assert(s[j] == t[j - 1]);
                    }
                }
            },
        }
    }
}

/// A keyed registry with insert-once semantics.
pub struct ConnectionPool<C> {
    pub entries: Vec<(String, C)>,
}

impl<C> ConnectionPool<C> {
    /// No two entries share a key.
    pub open spec fn wf(&self) -> bool {
        forall|i: int, j: int|
            0 <= i < j < self.entries@.len() ==> self.entries@[i].0@ != self.entries@[j].0@
    }

    /// An empty pool.
    pub fn new() -> (r: ConnectionPool<C>)
        ensures
            r.wf(),
            r.entries@.len() == 0,
    {
        ConnectionPool { entries: Vec::new() }
    }

    /// Index of the entry for `key`, if one exists.
    pub fn lookup(&self, key: &str) -> (r: Option<usize>)
        ensures
            match r {
                Some(i) => spec_key_index(self.entries@, key@) == Some(i as int) && i
                    < self.entries@.len(),
                None => spec_key_index(self.entries@, key@) is None,
            },
    {
        let mut i: usize = 0;
        while i < self.entries.len()
            invariant
                i <= self.entries@.len(),
                forall|j: int| 0 <= j < i ==> self.entries@[j].0@ != key@,
            decreases self.entries@.len() - i,
        {
            if str_eq(self.entries[i].0.as_str(), key) {
                proof {
                    lemma_key_index_is(self.entries@, key@, i as int);
                }
                return Some(i);
            }
            i = i + 1;
        }
        proof {
            lemma_key_index(self.entries@, key@);
            if let Some(k) = spec_key_index(self.entries@, key@) {
                assert(self.entries@[k].0@ != key@);
            }
        }
        None
    }

    /// Return the entry for `key`, inserting `candidate` only when no entry
    /// exists yet: a hit leaves the pool unchanged and the candidate is
    /// dropped, so the first construction for a key is the only one kept.
    pub fn get_or_insert(&mut self, key: String, candidate: C) -> (idx: usize)
        requires
            old(self).wf(),
        ensures
            final(self).wf(),
            idx < final(self).entries@.len(),
            final(self).entries@[idx as int].0@ == key@,
            match spec_key_index(old(self).entries@, key@) {
                Some(i) => final(self).entries@ == old(self).entries@ && idx == i,
                None => final(self).entries@ == old(self).entries@.push((key, candidate)) && idx
                    == old(self).entries@.len(),
            },
    {
        proof {
            lemma_key_index(self.entries@, key@);
        }
        match self.lookup(key.as_str()) {
            Some(i) => i,
            None => {
                let idx = self.entries.len();
                self.entries.push((key, candidate));
                proof {
                    lemma_key_index(old(self).entries@, key@);
                    assert forall|i: int, j: int|
                        0 <= i < j < self.entries@.len() implies self.entries@[i].0@
                        != self.entries@[j].0@ by {
                        if j < self.entries@.len() - 1 {
                            assert(self.entries@[i] == old(self).entries@[i]);
                            assert(self.entries@[j] == old(self).entries@[j]);
                        } else {
                            assert(self.entries@[i] == old(self).entries@[i]);
                        }
                    }
                }
                idx
            },
        }
    }

    /// The connection at a known index.
    pub fn at(&self, i: usize) -> (r: &C)
        requires
            i < self.entries@.len(),
        ensures
            *r == self.entries@[i as int].1,
    {
        &self.entries[i].1
    }
}

proof fn lemma_key_index_is<C>(s: Seq<(String, C)>, key: Seq<char>, i: int)
    requires
        0 <= i < s.len(),
        s[i].0@ == key,
        forall|j: int| 0 <= j < i ==> s[j].0@ != key,
    ensures
        spec_key_index(s, key) == Some(i),
{
    lemma_key_index(s, key);
    match spec_key_index(s, key) {
        Some(k) => {
            if k < i {
                assert(s[k].0@ != key);
            } else if k > i {
                assert(s[i].0@ != key);
            }
        },
        None => {
            assert(s[i].0@ != key);
        },
    }
}

/// The pool's state after a `get_or_insert` of `key` with `candidate`.
pub open spec fn spec_after_get<C>(s: Seq<(String, C)>, key: String, candidate: C) -> Seq<
    (String, C),
> {
    match spec_key_index(s, key@) {
        Some(_) => s,
        None => s.push((key, candidate)),
    }
}

/// The insert-once law: once any request has resolved a key, every later
/// request for the same key — whatever candidate connection it raced in
/// with — leaves the pool exactly as it was and resolves to the same entry,
/// so concurrent constructions for one endpoint collapse to a single cached
/// connection.
pub proof fn lemma_insert_once<C>(s: Seq<(String, C)>, key: String, c1: C, c2: C)
    ensures
        spec_after_get(spec_after_get(s, key, c1), key, c2) == spec_after_get(s, key, c1),
        spec_key_index(spec_after_get(s, key, c1), key@) is Some,
{
    lemma_key_index(s, key@);
    match spec_key_index(s, key@) {
        Some(i) => {},
        None => {
            let s2 = s.push((key, c1));
            lemma_key_index_is(s2, key@, s.len() as int);
        },
    }
}

/// The cache key an endpoint request resolves to: the explicit endpoint,
/// else the configured default, else the sentinel `default`.
pub fn endpoint_key(region: Option<&str>, default_region: Option<&str>) -> (r: String)
    ensures
        r@ == match region {
            Some(e) => e@,
            None => match default_region {
                Some(d) => d@,
                None => "default"@,
            },
        },
{
    match region {
        Some(e) => e.to_owned(),
        None => match default_region {
            Some(d) => d.to_owned(),
            None => "default".to_owned(),
        },
    }
}

} // verus!
