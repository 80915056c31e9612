//! The header store: a content-addressed mapping from identity to header.
//!
//! It holds every header ever observed, on whatever branch, with no ordering.
//! The store is kept as a vector of key/value pairs with pairwise-distinct
//! keys, and is viewed as a `Map` from identity to header.
use vstd::prelude::*;

use crate::header::Header;

verus! {

/// Whether some entry of `s` has key `k`.
pub open spec fn has_key(s: Seq<(u64, Header)>, k: u64) -> bool {
    exists|i: int| 0 <= i < s.len() && (#[trigger] s[i]).0 == k
}

/// Whether the keys of `s` are pairwise distinct.
pub open spec fn keys_unique(s: Seq<(u64, Header)>) -> bool {
    forall|i: int, j: int|
        0 <= i < j < s.len() ==> (#[trigger] s[i]).0 != (#[trigger] s[j]).0
}

/// The mapping that a sequence of key/value pairs denotes, later entries
/// winning; with pairwise-distinct keys, the only entry of each key wins.
pub open spec fn map_of(s: Seq<(u64, Header)>) -> Map<u64, Header>
    decreases s.len(),
{
    if s.len() == 0 {
        Map::empty()
    } else {
        map_of(s.drop_last()).insert(s.last().0, s.last().1)
    }
}

/// `map_of` has a finite domain, no larger than the entry count, and holds
/// exactly the keys that some entry carries.
pub proof fn lemma_map_of_props(s: Seq<(u64, Header)>)
    ensures
        map_of(s).dom().finite(),
        map_of(s).dom().len() <= s.len(),
        forall|k: u64| #[trigger] map_of(s).contains_key(k) <==> has_key(s, k),
    decreases s.len(),
{
    broadcast use vstd::set::group_set_axioms;

    if s.len() == 0 {
        assert(forall|k: u64| !has_key(s, k));
    } else {
        let d = s.drop_last();
        lemma_map_of_props(d);
        assert forall|k: u64| #[trigger] map_of(s).contains_key(k) implies has_key(s, k) by {
            if k == s.last().0 {
                assert(s[s.len() - 1].0 == k);
            } else {
                let i = choose|i: int| 0 <= i < d.len() && (#[trigger] d[i]).0 == k;
                assert(s[i].0 == k);
            }
        }
        assert forall|k: u64| has_key(s, k) implies map_of(s).contains_key(k) by {
            let i = choose|i: int| 0 <= i < s.len() && (#[trigger] s[i]).0 == k;
            if i < s.len() - 1 {
                assert(d[i].0 == k);
            }
        }
    }
}

/// With pairwise-distinct keys, `map_of` maps each entry's key to its value.
pub proof fn lemma_map_of_index(s: Seq<(u64, Header)>, i: int)
    requires
        keys_unique(s),
        0 <= i < s.len(),
    ensures
        map_of(s).contains_key(s[i].0),
        map_of(s)[s[i].0] == s[i].1,
    decreases s.len(),
{
    if i == s.len() - 1 {
    } else {
        let d = s.drop_last();
        assert(d[i] == s[i]);
        lemma_map_of_index(d, i);
        assert(s[i].0 != s[s.len() - 1].0);
    }
}

/// Removing the entry at `j` removes exactly its key from the mapping.
pub proof fn lemma_map_of_remove(s: Seq<(u64, Header)>, j: int)
    requires
        keys_unique(s),
        0 <= j < s.len(),
    ensures
        keys_unique(s.remove(j)),
        map_of(s.remove(j)) == map_of(s).remove(s[j].0),
    decreases s.len(),
{
    let r = s.remove(j);
    assert(keys_unique(r)) by {
        assert forall|a: int, b: int| 0 <= a < b < r.len() implies (#[trigger] r[a]).0
            != (#[trigger] r[b]).0 by {
            let a0: int = if a < j { a } else { a + 1 };
            let b0: int = if b < j { b } else { b + 1 };
            assert(r[a] == s[a0] && r[b] == s[b0]);
        }
    }
    if j == s.len() - 1 {
        let d = s.drop_last();
        assert(r =~= d);
        lemma_map_of_props(d);
        assert(!has_key(d, s[j].0)) by {
            assert forall|i: int| 0 <= i < d.len() implies (#[trigger] d[i]).0 != s[j].0 by {
                assert(d[i] == s[i]);
            }
        }
        assert(map_of(d).remove(s[j].0) =~= map_of(d));
        assert(map_of(s).remove(s[j].0) =~= map_of(d).insert(s[j].0, s[j].1).remove(s[j].0));
        assert(map_of(d).insert(s[j].0, s[j].1).remove(s[j].0) =~= map_of(d).remove(s[j].0));
    } else {
        let d = s.drop_last();
        assert(r.last() == s.last());
        assert(r.drop_last() =~= d.remove(j));
        assert(d[j] == s[j]);
        lemma_map_of_remove(d, j);
        assert(map_of(r) == map_of(d).remove(s[j].0).insert(s.last().0, s.last().1));
        assert(s.last().0 != s[j].0);
        assert(map_of(d).remove(s[j].0).insert(s.last().0, s.last().1) =~= map_of(d).insert(
            s.last().0,
            s.last().1,
        ).remove(s[j].0));
    }
}

/// Content-addressed store of every header ever observed.
pub struct HeaderStore {
    entries: Vec<(u64, Header)>,
}

impl View for HeaderStore {
    type V = Map<u64, Header>;

    closed spec fn view(&self) -> Map<u64, Header> {
        map_of(self.entries@)
    }
}

impl HeaderStore {
    /// The store's keys, in insertion order.
    pub closed spec fn keys(self) -> Seq<u64> {
        self.entries@.map_values(|e: (u64, Header)| e.0)
    }

    /// Well-formedness: each key appears in at most one entry.
    pub closed spec fn wf(self) -> bool {
        keys_unique(self.entries@)
    }

    /// The store's keys are exactly its mapping's domain, which is finite and
    /// no larger than the key count.
    pub proof fn lemma_keys(self)
        ensures
            self@.dom().finite(),
            self@.dom().len() <= self.keys().len(),
            forall|k: u64| #[trigger] self@.contains_key(k) <==> self.keys().contains(k),
    {
        lemma_map_of_props(self.entries@);
        assert forall|k: u64| has_key(self.entries@, k) <==> self.keys().contains(k) by {
            if has_key(self.entries@, k) {
                let i = choose|i: int|
                    0 <= i < self.entries@.len() && (#[trigger] self.entries@[i]).0 == k;
                assert(self.keys()[i] == k);
            }
            if self.keys().contains(k) {
                let i = choose|i: int|
                    0 <= i < self.keys().len() && self.keys()[i] == k;
                assert(self.entries@[i].0 == k);
            }
        }
    }

    /// An empty store.
    pub fn empty() -> (s: HeaderStore)
        ensures
            s.wf(),
            s@ == Map::<u64, Header>::empty(),
            s.keys().len() == 0,
    {
        HeaderStore { entries: Vec::new() }
    }

    /// How many headers the store holds.
    pub fn len(&self) -> (n: usize)
        ensures
            n == self.keys().len(),
    {
        self.entries.len()
    }

    /// The key of the `i`-th entry; used to enumerate every candidate tip.
    pub fn key_at(&self, i: usize) -> (k: u64)
        requires
            i < self.keys().len(),
        ensures
            k == self.keys()[i as int],
    {
        self.entries[i].0
    }

    /// The position of the entry of key `k`, if any.
    fn index_of(&self, k: u64) -> (r: Option<usize>)
        ensures
            match r {
                Some(i) => i < self.entries@.len() && self.entries@[i as int].0 == k,
                None => !has_key(self.entries@, k),
            },
    {
        let n = self.entries.len();
        for i in 0..n
            invariant
                n == self.entries@.len(),
                forall|j: int| 0 <= j < i ==> (#[trigger] self.entries@[j]).0 != k,
        {
            if self.entries[i].0 == k {
                return Some(i);
            }
        }
        None
    }

    /// Look a header up by its identity.
    pub fn get(&self, k: u64) -> (r: Option<Header>)
        requires
            self.wf(),
        ensures
            match r {
                Some(v) => self@.contains_key(k) && self@[k] == v,
                None => !self@.contains_key(k),
            },
    {
        proof {
            lemma_map_of_props(self.entries@);
        }
        match self.index_of(k) {
            Some(i) => {
                proof {
                    lemma_map_of_index(self.entries@, i as int);
                }
                Some(self.entries[i].1)
            },
            None => None,
        }
    }

    /// Insert a header under its key; inserting an already-present key has no
    /// observable effect.
    pub fn insert(&mut self, k: u64, v: Header)
        requires
            old(self).wf(),
        ensures
            final(self).wf(),
            final(self)@ == if old(self)@.contains_key(k) {
                old(self)@
            } else {
                old(self)@.insert(k, v)
            },
    {
        proof {
            lemma_map_of_props(self.entries@);
        }
        if let Some(i) = self.index_of(k) {
            proof {
                assert(has_key(self.entries@, k)) by {
                    assert(self.entries@[i as int].0 == k);
                }
            }
            return ;
        }
        assert(!has_key(self.entries@, k));
        let ghost s0 = self.entries@;
        self.entries.push((k, v));
        proof {
            assert(self.entries@.drop_last() =~= s0);
            assert forall|a: int, b: int|
                0 <= a < b < self.entries@.len() implies (#[trigger] self.entries@[a]).0
                != (#[trigger] self.entries@[b]).0 by {
                if b < self.entries@.len() - 1 {
                    assert(self.entries@[a] == s0[a] && self.entries@[b] == s0[b]);
                } else {
                    assert(self.entries@[a] == s0[a]);
                }
            }
        }
    }

    /// Forget the header of identity `k`, if any.
    pub fn remove(&mut self, k: u64)
        requires
            old(self).wf(),
        ensures
            final(self).wf(),
            final(self)@ == old(self)@.remove(k),
    {
        proof {
            lemma_map_of_props(self.entries@);
        }
        match self.index_of(k) {
            Some(i) => {
                proof {
                    lemma_map_of_remove(self.entries@, i as int);
                }
                self.entries.remove(i);
            },
            None => {
                proof {
                    assert(self@.remove(k) =~= self@);
                }
            },
        }
    }
}

} // verus!
