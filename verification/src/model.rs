//! The block cache: a reference block-tree that keeps every observed header
//! in a content-addressed store and, after each import, recomputes the active
//! chain from scratch as the genesis-rooted branch of maximal cumulative
//! work. Not meant for production use: it is the simple, obviously-correct
//! side of a differential test against a production block tree.
use vstd::prelude::*;
use vstd::pervasive::unreached;

use crate::branch::{
    chain_in_store, chain_linked, distinct_ids, ids_of, is_branch, lemma_branch_distinct,
    lemma_branch_len_bound, lemma_branch_unique, lemma_works_sum_all, lemma_works_sum_step,
    works_sum,
};
use crate::chain::{ne_from_vec, ne_get, ne_last, ne_len, ne_new, ne_to_vec, ne_seq};
use crate::header::{id_of, work_of, Header};
use crate::store::HeaderStore;
use crate::Height;

verus! {

/// The errors the block tree reports; malformed input yields one of these and
/// leaves every invariant intact.
#[derive(Clone, Copy, Debug, PartialEq, Eq)]
pub enum Error {
    /// A rollback was requested beyond the current chain height.
    InvalidHeight,
    /// Bulk construction was invoked with zero headers.
    EmptyChain,
    /// No genesis-rooted branch could be reconstructed from the store.
    Disconnected,
}

/// Every stored header sits under its own identity.
pub open spec fn content_addressed(m: Map<u64, Header>) -> bool {
    forall|k: u64| #[trigger] m.contains_key(k) ==> id_of(m[k]) == k
}

/// Inserting a header into a store that may already hold its identity: the
/// already-present entry wins, so the insert has no observable effect then.
pub open spec fn insert1(m: Map<u64, Header>, h: Header) -> Map<u64, Header> {
    if m.contains_key(id_of(h)) {
        m
    } else {
        m.insert(id_of(h), h)
    }
}

/// The store after inserting the headers of `s`, in order.
pub open spec fn store_after(m: Map<u64, Header>, s: Seq<Header>) -> Map<u64, Header>
    decreases s.len(),
{
    if s.len() == 0 {
        m
    } else {
        store_after(insert1(m, s[0]), s.drop_first())
    }
}

/// Appending one header to an import batch inserts it last.
pub proof fn lemma_store_after_push(m: Map<u64, Header>, s: Seq<Header>, h: Header)
    ensures
        store_after(m, s.push(h)) == insert1(store_after(m, s), h),
    decreases s.len(),
{
    if s.len() == 0 {
        assert(s.push(h)[0] == h);
        assert(s.push(h).drop_first() =~= Seq::<Header>::empty());
        assert(store_after(insert1(m, h), Seq::<Header>::empty()) == insert1(m, h));
        assert(store_after(m, s) == m);
    } else {
        assert(s.push(h)[0] == s[0]);
        assert(s.push(h).drop_first() =~= s.drop_first().push(h));
        lemma_store_after_push(insert1(m, s[0]), s.drop_first(), h);
        assert(store_after(m, s) == store_after(insert1(m, s[0]), s.drop_first()));
        assert(store_after(m, s.push(h)) == store_after(
            insert1(m, s[0]),
            s.drop_first().push(h),
        ));
    }
}

/// The reference block tree.
///
/// It owns a header store holding every header ever imported, and the active
/// chain currently selected by the fork choice; values handed out are
/// independent copies, never live aliases.
pub struct Cache {
    headers: HeaderStore,
    chain: nonempty::NonEmpty<Header>,
    tip: u64,
    genesis: u64,
}

impl Cache {
    /// The header store's mapping from identity to header.
    pub closed spec fn store_map(self) -> Map<u64, Header> {
        self.headers@
    }

    /// The active chain, genesis first.
    pub closed spec fn chain_seq(self) -> Seq<Header> {
        ne_seq(self.chain)
    }

    /// The identity fixed at construction time as the chain's root.
    pub closed spec fn genesis_id(self) -> u64 {
        self.genesis
    }

    /// The cached identity of the active chain's last element.
    pub closed spec fn tip_id(self) -> u64 {
        self.tip
    }

    /// The cache's invariant: the store is content-addressed, and the active
    /// chain is a non-empty linked genesis-rooted sequence of stored headers
    /// with pairwise-distinct identities, whose last element the cached tip
    /// names.
    pub closed spec fn wf(self) -> bool {
        &&& self.headers.wf()
        &&& content_addressed(self.store_map())
        &&& self.chain_seq().len() >= 1
        &&& id_of(self.chain_seq()[0]) == self.genesis
        &&& chain_linked(self.chain_seq())
        &&& chain_in_store(self.store_map(), self.chain_seq())
        &&& distinct_ids(self.chain_seq())
        &&& self.tip == id_of(self.chain_seq().last())
    }

    /// Create a cache holding only the given genesis header.
    pub fn new(genesis: Header) -> (c: Cache)
        ensures
            c.wf(),
            c.chain_seq() == seq![genesis],
            c.store_map() == Map::<u64, Header>::empty().insert(id_of(genesis), genesis),
            c.genesis_id() == id_of(genesis),
            c.tip_id() == id_of(genesis),
    {
        let id = genesis.identity();
        let mut headers = HeaderStore::empty();
        headers.insert(id, genesis);
        let chain = ne_new(genesis);
        let c = Cache { headers, chain, tip: id, genesis: id };
        proof {
            assert(c.chain_seq().last() == genesis);
            assert(c.chain_seq()[0] == genesis);
        }
        c
    }

    /// The height of the chain's tip; genesis alone has height zero.
    pub fn height(&self) -> (h: Height)
        ensures
            self.chain_seq().len() >= 1,
            h == self.chain_seq().len() - 1,
    {
        let n = ne_len(&self.chain);
        (n - 1) as u64
    }

    /// The identity and header of the active chain's last element.
    pub fn tip(&self) -> (r: (u64, Header))
        requires
            self.wf(),
        ensures
            r.0 == self.tip_id(),
            r.0 == id_of(self.chain_seq().last()),
            r.1 == self.chain_seq().last(),
    {
        let h = ne_last(&self.chain);
        (self.tip, h)
    }

    /// The header at the given height on the active chain, if any; heights
    /// past the tip yield nothing.
    pub fn get_block_by_height(&self, height: Height) -> (r: Option<Header>)
        ensures
            match r {
                Some(h) => height < self.chain_seq().len() && h == self.chain_seq()[height as int],
                None => height >= self.chain_seq().len(),
            },
    {
        let n = ne_len(&self.chain);
        if height >= n as u64 {
            None
        } else {
            ne_get(&self.chain, height as usize)
        }
    }

    /// The height and header of the block of the given identity, if it sits
    /// on the active chain; identities known only as orphans in the store
    /// yield nothing.
    pub fn get_block(&self, id: u64) -> (r: Option<(Height, Header)>)
        ensures
            match r {
                Some((h, hd)) => h < self.chain_seq().len() && hd == self.chain_seq()[h as int]
                    && id_of(hd) == id,
                None => forall|i: int|
                    0 <= i < self.chain_seq().len() ==> id_of(#[trigger] self.chain_seq()[i])
                        != id,
            },
    {
        let v = ne_to_vec(&self.chain);
        let n = v.len();
        for i in 0..n
            invariant
                n == v@.len(),
                v@ == self.chain_seq(),
                forall|j: int| 0 <= j < i ==> id_of(#[trigger] self.chain_seq()[j]) != id,
        {
            if v[i].identity() == id {
                return Some((i as u64, v[i]));
            }
        }
        None
    }

    /// An independent snapshot of the active chain as height/header pairs, in
    /// increasing height order starting at zero; later mutation of the cache
    /// has no effect on it.
    pub fn iter(&self) -> (r: Vec<(Height, Header)>)
        ensures
            r@.len() == self.chain_seq().len(),
            forall|i: int|
                0 <= i < r@.len() ==> (#[trigger] r@[i]).0 == i && r@[i].1 == self.chain_seq()[i],
    {
        let v = ne_to_vec(&self.chain);
        let n = v.len();
        let mut r: Vec<(Height, Header)> = Vec::new();
        for i in 0..n
            invariant
                n == v@.len(),
                v@ == self.chain_seq(),
                r@.len() == i,
                forall|j: int|
                    0 <= j < i ==> (#[trigger] r@[j]).0 == j && r@[j].1 == self.chain_seq()[j],
        {
            r.push((i as u64, v[i]));
        }
        r
    }

    /// Walk backward from `tip_id` through predecessor links, yielding the
    /// ordered branch from genesis to that tip, or nothing if the walk does
    /// not reach the genesis header exactly. The walk is bounded by the store
    /// size, so a cyclic set of predecessor links cannot hang it.
    #[verifier::rlimit(50)]
    fn branch(&self, tip_id: u64) -> (r: Option<Vec<Header>>)
        requires
            self.wf(),
        ensures
            match r {
                Some(v) => is_branch(self.store_map(), self.genesis_id(), v@) && id_of(v@.last())
                    == tip_id,
                None => forall|s: Seq<Header>|
                    is_branch(self.store_map(), self.genesis_id(), s) ==> id_of(s.last())
                        != tip_id,
            },
    {
        let ghost m = self.store_map();
        let ghost g = self.genesis_id();
        let cap = self.headers.len();
        let mut acc: Vec<Header> = Vec::new();
        let mut cur: u64 = tip_id;
        let mut finished = false;
        let mut i: usize = 0;
        while i < cap && !finished
            invariant
                self.wf(),
                m == self.store_map(),
                g == self.genesis_id(),
                cap == self.headers.keys().len(),
                i == acc@.len(),
                i <= cap,
                forall|j: int|
                    0 <= j < acc@.len() ==> m.contains_key(id_of(#[trigger] acc@[j]))
                        && m[id_of(acc@[j])] == acc@[j],
                acc@.len() >= 1 ==> id_of(acc@[0]) == tip_id,
                forall|j: int|
                    0 <= j < acc@.len() - 1 ==> (#[trigger] acc@[j]).prev == id_of(acc@[j + 1]),
                cur == if acc@.len() == 0 {
                    tip_id
                } else {
                    acc@.last().prev
                },
                finished ==> !m.contains_key(cur),
                forall|s: Seq<Header>|
                    #[trigger] is_branch(m, g, s) && id_of(s.last()) == tip_id ==> suffix_matches(
                        s,
                        acc@,
                    ),
            decreases cap - i + (if finished { 0int } else { 1int }),
        {
            match self.headers.get(cur) {
                Some(h) => {
                    proof {
                        lemma_walk_extends(m, g, acc@, cur, h, tip_id);
                    }
                    acc.push(h);
                    cur = h.prev;
                    i = i + 1;
                },
                None => {
                    finished = true;
                },
            }
        }
        if !finished {
            match self.headers.get(cur) {
                Some(_) => {
                    proof {
                        self.headers.lemma_keys();
                        assert forall|s: Seq<Header>| is_branch(m, g, s) implies id_of(s.last())
                            != tip_id by {
                            if id_of(s.last()) == tip_id {
                                assert(suffix_matches(s, acc@));
                                if s.len() == acc@.len() {
                                    assert(s[0] == acc@[s.len() - 1]);
                                    assert(m.contains_key(s[0].prev));
                                } else {
                                    lemma_branch_len_bound(m, g, s);
                                }
                            }
                        }
                    }
                    return None;
                },
                None => {},
            }
        }
        // Here the walk has stopped cleanly: `cur` is not in the store.
        let k = acc.len();
        if k == 0 {
            proof {
                assert forall|s: Seq<Header>| is_branch(m, g, s) implies id_of(s.last())
                    != tip_id by {
                    assert(m.contains_key(id_of(s[s.len() - 1])));
                }
            }
            return None;
        }
        let root = acc[k - 1];
        if root.identity() != self.genesis {
            proof {
                assert forall|s: Seq<Header>| is_branch(m, g, s) implies id_of(s.last())
                    != tip_id by {
                    if id_of(s.last()) == tip_id {
                        assert(suffix_matches(s, acc@));
                        assert(s[s.len() - k] == acc@[k - 1]);
                        if s.len() == k {
                            assert(id_of(s[0]) == g);
                        } else {
                            assert(s[s.len() - k].prev == id_of(s[s.len() - 1 - k]));
                            assert(m.contains_key(id_of(s[s.len() - 1 - k])));
                        }
                    }
                }
            }
            return None;
        }
        let mut out: Vec<Header> = Vec::new();
        for j in 0..k
            invariant
                k == acc@.len(),
                out@.len() == j,
                forall|jj: int| 0 <= jj < j ==> out@[jj] == acc@[k - 1 - jj],
        {
            out.push(acc[k - 1 - j]);
        }
        proof {
            assert(out@.len() == k);
            assert(out@[0] == acc@[k - 1]);
            assert(id_of(out@[0]) == g);
            assert(out@[0].prev == cur);
            assert(chain_linked(out@)) by {
                assert forall|idx: int| 1 <= idx < out@.len() implies (#[trigger] out@[idx]).prev
                    == id_of(out@[idx - 1]) by {
                    assert(out@[idx] == acc@[k - 1 - idx]);
                    assert(out@[idx - 1] == acc@[k - idx]);
                    assert(acc@[k - 1 - idx].prev == id_of(acc@[k - 1 - idx + 1]));
                }
            }
            assert(chain_in_store(m, out@)) by {
                assert forall|idx: int| 0 <= idx < out@.len() implies m.contains_key(
                    id_of(#[trigger] out@[idx]),
                ) && m[id_of(out@[idx])] == out@[idx] by {
                    assert(out@[idx] == acc@[k - 1 - idx]);
                }
            }
            assert(out@.last() == acc@[0]);
        }
        Some(out)
    }

    /// Sum the work values of a branch's non-genesis headers; a 128-bit
    /// accumulator cannot overflow on any branch a machine can hold.
    fn cumulative_work(v: &Vec<Header>) -> (w: u128)
        requires
            v@.len() >= 1,
        ensures
            w as int == works_sum(v@),
    {
        let n = v.len();
        let mut w: u128 = 0;
        let mut i: usize = 1;
        while i < n
            invariant
                1 <= i <= n,
                n == v@.len(),
                w as int == works_sum(v@.take(i as int)),
                w as int <= (i - 1) * (u64::MAX as int),
            decreases n - i,
        {
            let wk = v[i].work();
            proof {
                lemma_works_sum_step(v@, i as int);
                crate::header::lemma_work_bounds(v@[i as int].bits);
                assert((i - 1) * (u64::MAX as int) + (u64::MAX as int) == i * (u64::MAX as int));
                assert(i * (u64::MAX as int) <= (u64::MAX as int) * (u64::MAX as int))
                    by (nonlinear_arith)
                    requires
                        0 <= i as int <= u64::MAX as int,
                ;
                assert((u64::MAX as int) * (u64::MAX as int) < u128::MAX as int);
            }
            w = w + (wk as u128);
            i = i + 1;
        }
        proof {
            lemma_works_sum_all(v@);
        }
        w
    }

    /// The fork choice: reconstruct a branch from every identity in the
    /// store and select the one of maximal cumulative work, preferring on an
    /// exact work tie the branch whose tip identity is numerically smaller.
    /// Nothing is selected only when no identity reaches genesis.
    #[verifier::rlimit(50)]
    fn longest_chain(&self) -> (r: Option<Vec<Header>>)
        requires
            self.wf(),
        ensures
            match r {
                Some(v) => {
                    &&& is_branch(self.store_map(), self.genesis_id(), v@)
                    &&& forall|s: Seq<Header>|
                        #[trigger] is_branch(self.store_map(), self.genesis_id(), s)
                            ==> works_sum(s) <= works_sum(v@)
                    &&& forall|s: Seq<Header>|
                        #[trigger] is_branch(self.store_map(), self.genesis_id(), s)
                            && works_sum(s) == works_sum(v@) ==> id_of(v@.last()) <= id_of(
                            s.last(),
                        )
                },
                None => forall|s: Seq<Header>|
                    !is_branch(self.store_map(), self.genesis_id(), s),
            },
    {
        let ghost m = self.store_map();
        let ghost g = self.genesis_id();
        let n = self.headers.len();
        let mut found = false;
        let mut best_v: Vec<Header> = Vec::new();
        let mut best_w: u128 = 0;
        let mut best_t: u64 = 0;
        for i in 0..n
            invariant
                self.wf(),
                m == self.store_map(),
                g == self.genesis_id(),
                n == self.headers.keys().len(),
                !found ==> forall|s: Seq<Header>|
                    #[trigger] is_branch(m, g, s) ==> !self.headers.keys().take(i as int).contains(
                        id_of(s.last()),
                    ),
                found ==> is_branch(m, g, best_v@) && best_w as int == works_sum(best_v@) && best_t
                    == id_of(best_v@.last()),
                found ==> forall|s: Seq<Header>|
                    #[trigger] is_branch(m, g, s) && self.headers.keys().take(i as int).contains(
                        id_of(s.last()),
                    ) ==> works_sum(s) < best_w as int || (works_sum(s) == best_w as int && best_t
                        <= id_of(s.last())),
        {
            let k = self.headers.key_at(i);
            let ghost keys_now = self.headers.keys().take(i as int + 1);
            proof {
                assert(keys_now =~= self.headers.keys().take(i as int).push(k));
            }
            match self.branch(k) {
                Some(v) => {
                    let w = Cache::cumulative_work(&v);
                    let replace = !found || w > best_w || (w == best_w && k < best_t);
                    proof {
                        assert forall|s: Seq<Header>|
                            #[trigger] is_branch(m, g, s) && id_of(s.last()) == k implies s
                            == v@ by {
                            lemma_branch_unique(m, g, s, v@);
                        }
                    }
                    if replace {
                        best_v = v;
                        best_w = w;
                        best_t = k;
                        found = true;
                    }
                    proof {
                        assert forall|s: Seq<Header>|
                            #[trigger] is_branch(m, g, s) && keys_now.contains(id_of(s.last()))
                            implies works_sum(s) < best_w as int || (works_sum(s)
                            == best_w as int && best_t <= id_of(s.last())) by {
                            if id_of(s.last()) == k {
                                assert(s == v@);
                            } else {
                                assert(self.headers.keys().take(i as int).contains(
                                    id_of(s.last()),
                                ));
                            }
                        }
                    }
                },
                None => {
                    proof {
                        if found {
                            assert forall|s: Seq<Header>|
                                #[trigger] is_branch(m, g, s) && keys_now.contains(id_of(s.last()))
                                implies works_sum(s) < best_w as int || (works_sum(s)
                                == best_w as int && best_t <= id_of(s.last())) by {
                                assert(id_of(s.last()) != k);
                                assert(self.headers.keys().take(i as int).contains(
                                    id_of(s.last()),
                                ));
                            }
                        } else {
                            assert forall|s: Seq<Header>| #[trigger] is_branch(m, g, s) implies
                                !keys_now.contains(id_of(s.last())) by {
                                assert(id_of(s.last()) != k);
                            }
                        }
                    }
                },
            }
        }
        proof {
            self.headers.lemma_keys();
            assert(self.headers.keys().take(n as int) =~= self.headers.keys());
            assert forall|s: Seq<Header>| #[trigger] is_branch(m, g, s) implies self.headers.keys()
                .contains(id_of(s.last())) by {
                assert(m.contains_key(id_of(s[s.len() - 1])));
            }
        }
        if found {
            Some(best_v)
        } else {
            proof {
                assert forall|s: Seq<Header>| !is_branch(m, g, s) by {
                    if is_branch(m, g, s) {
                        assert(!self.headers.keys().take(n as int).contains(id_of(s.last())));
                    }
                }
            }
            None
        }
    }

    /// Import a batch of headers, in any order and connected or not: every
    /// header is inserted into the store verbatim, and the active chain is
    /// then recomputed from scratch by the fork choice. Disconnected headers
    /// stay latent in the store without affecting the active chain. On
    /// success the new tip's identity and height are returned; if no
    /// genesis-rooted branch remains reconstructible, the active chain is
    /// left untouched and an error is reported. The context value is an
    /// opaque input of upstream validation and is not used here.
    #[verifier::rlimit(50)]
    pub fn import_blocks<C>(&mut self, headers: &Vec<Header>, _context: &C) -> (r: Result<
        (u64, Height),
        Error,
    >)
        requires
            old(self).wf(),
        ensures
            final(self).wf(),
            final(self).genesis_id() == old(self).genesis_id(),
            final(self).store_map() == store_after(old(self).store_map(), headers@),
            match r {
                Ok((t, h)) => {
                    &&& is_branch(
                        final(self).store_map(),
                        final(self).genesis_id(),
                        final(self).chain_seq(),
                    )
                    &&& forall|s: Seq<Header>|
                        #[trigger] is_branch(final(self).store_map(), final(self).genesis_id(), s)
                            ==> works_sum(s) <= works_sum(final(self).chain_seq())
                    &&& forall|s: Seq<Header>|
                        #[trigger] is_branch(final(self).store_map(), final(self).genesis_id(), s)
                            && works_sum(s) == works_sum(final(self).chain_seq())
                            ==> final(self).tip_id() <= id_of(s.last())
                    &&& t == final(self).tip_id()
                    &&& t == id_of(final(self).chain_seq().last())
                    &&& h == final(self).chain_seq().len() - 1
                    &&& final(self).chain_seq()[0] == old(self).chain_seq()[0]
                },
                Err(e) => {
                    &&& e == Error::Disconnected
                    &&& final(self).chain_seq() == old(self).chain_seq()
                    &&& final(self).tip_id() == old(self).tip_id()
                    &&& forall|s: Seq<Header>|
                        !is_branch(final(self).store_map(), final(self).genesis_id(), s)
                },
            },
    {
        let ghost m0 = old(self).store_map();
        let n = headers.len();
        for i in 0..n
            invariant
                n == headers@.len(),
                self.headers.wf(),
                content_addressed(self.headers@),
                self.headers@ == store_after(m0, headers@.take(i as int)),
                forall|k: u64|
                    #[trigger] m0.contains_key(k) ==> self.headers@.contains_key(k)
                        && self.headers@[k] == m0[k],
                self.chain == old(self).chain,
                self.tip == old(self).tip,
                self.genesis == old(self).genesis,
        {
            let h = headers[i];
            let id = h.identity();
            proof {
                assert(headers@.take(i as int + 1) =~= headers@.take(i as int).push(h));
                lemma_store_after_push(m0, headers@.take(i as int), h);
            }
            self.headers.insert(id, h);
        }
        proof {
            assert(headers@.take(n as int) =~= headers@);
            assert(chain_in_store(self.headers@, ne_seq(self.chain))) by {
                assert forall|i: int|
                    0 <= i < ne_seq(self.chain).len() implies self.headers@.contains_key(
                    id_of(#[trigger] ne_seq(self.chain)[i]),
                ) && self.headers@[id_of(ne_seq(self.chain)[i])] == ne_seq(self.chain)[i] by {
                    assert(m0.contains_key(id_of(ne_seq(self.chain)[i])));
                }
            }
        }
        match self.longest_chain() {
            Some(v) => {
                let ghost bv = v@;
                let c = match ne_from_vec(v) {
                    Some(c) => c,
                    None => unreached(),
                };
                self.chain = c;
                let last = ne_last(&self.chain);
                self.tip = last.identity();
                let n2 = ne_len(&self.chain);
                proof {
                    lemma_branch_distinct(self.headers@, self.genesis, bv);
                    assert(self.headers@.contains_key(self.genesis));
                    assert(self.headers@[self.genesis] == bv[0]);
                    assert(m0.contains_key(id_of(old(self).chain_seq()[0])));
                    assert(m0[self.genesis] == old(self).chain_seq()[0]);
                }
                Ok((self.tip, (n2 - 1) as u64))
            },
            None => Err(Error::Disconnected),
        }
    }

    /// Truncate the active chain to keep heights `0..=height` only, and
    /// forget every removed header entirely — it leaves the store as well as
    /// the chain. A height beyond the current tip is refused. On success the
    /// cached tip names the new last element.
    #[verifier::rlimit(50)]
    pub fn rollback(&mut self, height: Height) -> (r: Result<(), Error>)
        requires
            old(self).wf(),
        ensures
            final(self).wf(),
            final(self).genesis_id() == old(self).genesis_id(),
            match r {
                Ok(_) => {
                    &&& height as int + 1 <= old(self).chain_seq().len()
                    &&& final(self).chain_seq() == old(self).chain_seq().take(height as int + 1)
                    &&& final(self).store_map() == old(self).store_map().remove_keys(
                        ids_of(old(self).chain_seq().skip(height as int + 1)),
                    )
                    &&& final(self).tip_id() == id_of(final(self).chain_seq().last())
                    &&& final(self).chain_seq()[0] == old(self).chain_seq()[0]
                },
                Err(e) => {
                    &&& e == Error::InvalidHeight
                    &&& height as int + 1 > old(self).chain_seq().len()
                    &&& *final(self) == *old(self)
                },
            },
    {
        let n = ne_len(&self.chain);
        if height >= n as u64 {
            return Err(Error::InvalidHeight);
        }
        let keep: usize = (height as usize) + 1;
        let mut v = ne_to_vec(&self.chain);
        let len = v.len();
        let ghost m0 = old(self).store_map();
        let ghost c0 = old(self).chain_seq();
        for i in keep..len
            invariant
                keep <= len,
                v@ == c0,
                len == v@.len(),
                self.headers.wf(),
                self.headers@ == m0.remove_keys(ids_of(c0.subrange(keep as int, i as int))),
                self.chain == old(self).chain,
                self.tip == old(self).tip,
                self.genesis == old(self).genesis,
        {
            let id = v[i].identity();
            proof {
                let pre = c0.subrange(keep as int, i as int);
                let post = c0.subrange(keep as int, i as int + 1);
                assert(post =~= pre.push(c0[i as int]));
                lemma_ids_of_push(pre, c0[i as int]);
                assert(m0.remove_keys(ids_of(pre)).remove(id) =~= m0.remove_keys(
                    ids_of(pre).insert(id),
                ));
            }
            self.headers.remove(id);
        }
        proof {
            assert(c0.subrange(keep as int, len as int) =~= c0.skip(keep as int));
        }
        v.truncate(keep);
        self.chain = match ne_from_vec(v) {
            Some(c) => c,
            None => unreached(),
        };
        let last = ne_last(&self.chain);
        self.tip = last.identity();
        proof {
            let c1 = self.chain_seq();
            let removed = ids_of(c0.skip(keep as int));
            assert(c1 =~= c0.take(keep as int));
            assert(chain_linked(c1) && distinct_ids(c1)) by {
                assert(forall|i: int| 0 <= i < keep ==> c1[i] == c0[i]);
            }
            assert(chain_in_store(self.headers@, c1)) by {
                assert forall|i: int| 0 <= i < c1.len() implies self.headers@.contains_key(
                    id_of(#[trigger] c1[i]),
                ) && self.headers@[id_of(c1[i])] == c1[i] by {
                    assert(c1[i] == c0[i]);
                    assert(m0.contains_key(id_of(c0[i])) && m0[id_of(c0[i])] == c0[i]);
                    assert(!removed.contains(id_of(c0[i]))) by {
                        if removed.contains(id_of(c0[i])) {
                            let j = choose|j: int|
                                0 <= j < c0.skip(keep as int).len() && id_of(
                                    #[trigger] c0.skip(keep as int)[j],
                                ) == id_of(c0[i]);
                            assert(c0.skip(keep as int)[j] == c0[keep + j]);
                            assert(id_of(c0[i]) != id_of(c0[keep + j]));
                        }
                    }
                }
            }
            assert(content_addressed(self.headers@)) by {
                assert forall|k: u64| #[trigger] self.headers@.contains_key(k) implies id_of(
                    self.headers@[k],
                ) == k by {
                    assert(m0.contains_key(k) && m0[k] == self.headers@[k]);
                }
            }
            assert(id_of(c1[0]) == self.genesis);
        }
        Ok(())
    }

    /// Bulk-load an already-ordered chain: the caller vouches that the
    /// headers form a connected sequence of distinct identities rooted at its
    /// first element, which becomes the genesis. Zero headers are refused.
    #[verifier::rlimit(50)]
    pub fn from(chain: Vec<Header>) -> (r: Result<Cache, Error>)
        requires
            chain@.len() >= 1 ==> chain_linked(chain@) && distinct_ids(chain@),
        ensures
            match r {
                Ok(c) => {
                    &&& chain@.len() >= 1
                    &&& c.wf()
                    &&& c.chain_seq() == chain@
                    &&& c.genesis_id() == id_of(chain@[0])
                    &&& c.tip_id() == id_of(chain@.last())
                    &&& c.store_map() == store_after(Map::<u64, Header>::empty(), chain@)
                },
                Err(e) => e == Error::EmptyChain && chain@.len() == 0,
            },
    {
        let n = chain.len();
        if n == 0 {
            return Err(Error::EmptyChain);
        }
        let mut headers = HeaderStore::empty();
        for i in 0..n
            invariant
                n == chain@.len(),
                distinct_ids(chain@),
                headers.wf(),
                content_addressed(headers@),
                headers@ == store_after(Map::<u64, Header>::empty(), chain@.take(i as int)),
                forall|j: int|
                    0 <= j < i ==> headers@.contains_key(id_of(#[trigger] chain@[j]))
                        && headers@[id_of(chain@[j])] == chain@[j],
        {
            let h = chain[i];
            let id = h.identity();
            proof {
                assert(chain@.take(i as int + 1) =~= chain@.take(i as int).push(h));
                lemma_store_after_push(Map::<u64, Header>::empty(), chain@.take(i as int), h);
                assert(!headers@.contains_key(id)) by {
                    lemma_store_after_dom(Map::<u64, Header>::empty(), chain@.take(i as int));
                    if headers@.contains_key(id) {
                        let t = chain@.take(i as int);
                        assert(ids_of(t).contains(id));
                        let j = choose|j: int| 0 <= j < t.len() && id_of(#[trigger] t[j]) == id;
                        assert(t[j] == chain@[j]);
                        assert(id_of(chain@[j]) != id_of(chain@[i as int]));
                    }
                }
            }
            headers.insert(id, h);
        }
        let genesis = chain[0].identity();
        let tip = chain[n - 1].identity();
        let ghost cv = chain@;
        let ne = match ne_from_vec(chain) {
            Some(c) => c,
            None => unreached(),
        };
        let c = Cache { headers, chain: ne, tip, genesis };
        proof {
            assert(cv.take(cv.len() as int) =~= cv);
            assert(c.chain_seq().last() == cv[cv.len() - 1]);
        }
        Ok(c)
    }
}

/// Appending one header to a sequence adds exactly its identity to the
/// sequence's identity set.
pub proof fn lemma_ids_of_push(s: Seq<Header>, h: Header)
    ensures
        ids_of(s.push(h)) == ids_of(s).insert(id_of(h)),
{
    broadcast use vstd::set::group_set_axioms;

    let sp = s.push(h);
    assert forall|k: u64| ids_of(sp).contains(k) implies ids_of(s).insert(id_of(h)).contains(
        k,
    ) by {
        let j = choose|j: int| 0 <= j < sp.len() && id_of(#[trigger] sp[j]) == k;
        if j < s.len() {
            assert(id_of(s[j]) == k);
        } else {
            assert(sp[j] == h);
        }
    }
    assert forall|k: u64| ids_of(s).insert(id_of(h)).contains(k) implies ids_of(sp).contains(
        k,
    ) by {
        if k == id_of(h) {
            assert(id_of(sp[s.len() as int]) == k);
        } else {
            let j = choose|j: int| 0 <= j < s.len() && id_of(#[trigger] s[j]) == k;
            assert(id_of(sp[j]) == k);
        }
    }
    assert(ids_of(s.push(h)) =~= ids_of(s).insert(id_of(h)));
}

/// Inserting a batch reaches exactly the keys already present plus the
/// batch's identities.
pub proof fn lemma_store_after_dom(m: Map<u64, Header>, s: Seq<Header>)
    ensures
        forall|k: u64|
            #[trigger] store_after(m, s).contains_key(k) <==> m.contains_key(k) || ids_of(
                s,
            ).contains(k),
    decreases s.len(),
{
    broadcast use vstd::set::group_set_axioms;

    if s.len() == 0 {
        assert forall|k: u64| !ids_of(s).contains(k) by {}
    } else {
        let d = s.drop_first();
        let m1 = insert1(m, s[0]);
        lemma_store_after_dom(m1, d);
        assert forall|k: u64|
            #[trigger] store_after(m, s).contains_key(k) <==> m.contains_key(k) || ids_of(
            s,
        ).contains(k) by {
            assert(store_after(m, s) == store_after(m1, d));
            assert(ids_of(s).contains(k) <==> (k == id_of(s[0]) || ids_of(d).contains(k))) by {
                if ids_of(s).contains(k) {
                    let j = choose|j: int| 0 <= j < s.len() && id_of(#[trigger] s[j]) == k;
                    if j >= 1 {
                        assert(id_of(d[j - 1]) == k);
                    }
                }
                if ids_of(d).contains(k) {
                    let j = choose|j: int| 0 <= j < d.len() && id_of(#[trigger] d[j]) == k;
                    assert(id_of(s[j + 1]) == k);
                }
                assert(id_of(s[0]) == id_of(s[0]));
            }
        }
    }
}

/// Rolling back to height `h` and then re-importing exactly the removed
/// headers restores the original tip, absent any competing fork: the store
/// after forgetting and re-inserting the suffix is the original store again,
/// and on a store holding exactly one branch's headers the fork choice can
/// select nothing but that branch, since every other branch has strictly
/// less cumulative work. Headers of zero work are excluded: with them a
/// shorter prefix could tie the full chain and win the tie-break.
pub proof fn lemma_rollback_reimport_restores_tip(
    m: Map<u64, Header>,
    g: u64,
    c: Seq<Header>,
    h: int,
)
    requires
        is_branch(m, g, c),
        m.dom() == ids_of(c),
        0 <= h < c.len(),
        forall|i: int| 1 <= i < c.len() ==> (#[trigger] c[i]).bits < u64::MAX,
    ensures
        store_after(m.remove_keys(ids_of(c.skip(h + 1))), c.skip(h + 1)) == m,
        forall|s: Seq<Header>| #[trigger] is_branch(m, g, s) && s != c ==> works_sum(s) < works_sum(
            c,
        ),
{
    lemma_branch_distinct(m, g, c);
    assert forall|i: int| 1 <= i < c.len() implies work_of((#[trigger] c[i]).bits) >= 1 by {
        crate::header::lemma_work_positive(c[i].bits);
    }
    let t = c.skip(h + 1);
    assert(forall|i: int| 0 <= i < t.len() ==> t[i] == c[h + 1 + i]);
    assert(distinct_ids(t)) by {
        assert forall|i: int, j: int| 0 <= i < j < t.len() implies id_of(#[trigger] t[i]) != id_of(
            #[trigger] t[j],
        ) by {
            assert(t[i] == c[h + 1 + i] && t[j] == c[h + 1 + j]);
        }
    }
    assert(forall|i: int|
        0 <= i < t.len() ==> m.contains_key(id_of(#[trigger] t[i])) && m[id_of(t[i])] == t[i]);
    lemma_reimport_restores_store(m, t);
    crate::branch::lemma_no_fork_unique_best(m, g, c);
}

/// Re-importing headers that were just forgotten puts the store back exactly
/// as it was, when each of them was stored under its own identity and their
/// identities are distinct.
pub proof fn lemma_reimport_restores_store(m: Map<u64, Header>, s: Seq<Header>)
    requires
        forall|i: int|
            0 <= i < s.len() ==> m.contains_key(id_of(#[trigger] s[i])) && m[id_of(s[i])] == s[i],
        distinct_ids(s),
    ensures
        store_after(m.remove_keys(ids_of(s)), s) == m,
    decreases s.len(),
{
    broadcast use vstd::set::group_set_axioms;

    let m_r = m.remove_keys(ids_of(s));
    if s.len() == 0 {
        assert(m_r =~= m);
    } else {
        let d = s.drop_first();
        let id0 = id_of(s[0]);
        assert(!m_r.contains_key(id0)) by {
            assert(id_of(s[0]) == id0);
        }
        assert(insert1(m_r, s[0]) == m.remove_keys(ids_of(d))) by {
            assert forall|k: u64| #[trigger] insert1(m_r, s[0]).contains_key(k) <==> m.remove_keys(
                ids_of(d),
            ).contains_key(k) by {
                if k == id0 {
                    assert(insert1(m_r, s[0]).contains_key(k));
                    assert(!ids_of(d).contains(k)) by {
                        if ids_of(d).contains(k) {
                            let j = choose|j: int|
                                0 <= j < d.len() && id_of(#[trigger] d[j]) == k;
                            assert(d[j] == s[j + 1]);
                            assert(id_of(s[0]) != id_of(s[j + 1]));
                        }
                    }
                } else {
                    assert(ids_of(s).contains(k) <==> ids_of(d).contains(k)) by {
                        if ids_of(s).contains(k) {
                            let j = choose|j: int|
                                0 <= j < s.len() && id_of(#[trigger] s[j]) == k;
                            assert(j >= 1);
                            assert(id_of(d[j - 1]) == k);
                        }
                        if ids_of(d).contains(k) {
                            let j = choose|j: int|
                                0 <= j < d.len() && id_of(#[trigger] d[j]) == k;
                            assert(id_of(s[j + 1]) == k);
                        }
                    }
                }
            }
            assert(insert1(m_r, s[0]) =~= m.remove_keys(ids_of(d)));
        }
        assert(forall|i: int|
            0 <= i < d.len() ==> m.contains_key(id_of(#[trigger] d[i])) && m[id_of(d[i])]
                == d[i]) by {
            assert(forall|i: int| 0 <= i < d.len() ==> d[i] == s[i + 1]);
        }
        assert(distinct_ids(d)) by {
            assert forall|i: int, j: int| 0 <= i < j < d.len() implies id_of(#[trigger] d[i])
                != id_of(#[trigger] d[j]) by {
                assert(d[i] == s[i + 1] && d[j] == s[j + 1]);
            }
        }
        lemma_reimport_restores_store(m, d);
        assert(store_after(m_r, s) == store_after(insert1(m_r, s[0]), d));
    }
}

/// The last `acc.len()` elements of `s`, read backward from its end, are
/// exactly `acc`.
spec fn suffix_matches(s: Seq<Header>, acc: Seq<Header>) -> bool {
    s.len() >= acc.len() && forall|j: int| 0 <= j < acc.len() ==> s[s.len() - 1 - j] == acc[j]
}

/// One step of the backward walk: when the sought predecessor is still in the
/// store, every branch ending at the walked-from tip extends the walked
/// suffix by exactly that stored header.
proof fn lemma_walk_extends(
    m: Map<u64, Header>,
    g: u64,
    acc: Seq<Header>,
    cur: u64,
    h: Header,
    tip_id: u64,
)
    requires
        content_addressed(m),
        m.contains_key(cur),
        m[cur] == h,
        cur == if acc.len() == 0 {
            tip_id
        } else {
            acc.last().prev
        },
        forall|s: Seq<Header>|
            #[trigger] is_branch(m, g, s) && id_of(s.last()) == tip_id ==> suffix_matches(s, acc),
    ensures
        forall|s: Seq<Header>|
            #[trigger] is_branch(m, g, s) && id_of(s.last()) == tip_id ==> suffix_matches(
                s,
                acc.push(h),
            ),
{
    assert forall|s: Seq<Header>|
        #[trigger] is_branch(m, g, s) && id_of(s.last()) == tip_id implies suffix_matches(
        s,
        acc.push(h),
    ) by {
        assert(suffix_matches(s, acc));
        let n = s.len() as int;
        let k = acc.len() as int;
        if k == 0 {
            assert(m.contains_key(id_of(s[n - 1])) && m[id_of(s[n - 1])] == s[n - 1]);
            assert(h == s[n - 1]);
        } else {
            assert(s[n - 1 - (k - 1)] == acc[k - 1]);
            if n == k {
                assert(s[0] == acc[k - 1]);
                assert(!m.contains_key(s[0].prev));
                assert(false);
            } else {
                assert(s[n - k].prev == id_of(s[n - k - 1]));
                assert(m.contains_key(id_of(s[n - 1 - k])) && m[id_of(s[n - 1 - k])] == s[n - 1
                    - k]);
                assert(h == s[n - 1 - k]);
            }
        }
        assert(forall|j: int| 0 <= j < k ==> s[n - 1 - j] == acc.push(h)[j]);
        assert(s[n - 1 - k] == acc.push(h)[k]);
    }
}

} // verus!

