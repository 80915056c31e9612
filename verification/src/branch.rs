//! Genesis-rooted branches: what it means for a sequence of headers to be
//! reconstructible from the store, and the cumulative-work order on branches
//! that the fork choice maximises.
use vstd::prelude::*;
use vstd::set_lib::lemma_len_subset;

use crate::header::{id_of, work_of, Header};

verus! {

/// Each header's predecessor identity names the header before it.
pub open spec fn chain_linked(s: Seq<Header>) -> bool {
    forall|i: int| 1 <= i < s.len() ==> (#[trigger] s[i]).prev == id_of(s[i - 1])
}

/// Every header of `s` is stored under its own identity in `m`.
pub open spec fn chain_in_store(m: Map<u64, Header>, s: Seq<Header>) -> bool {
    forall|i: int|
        0 <= i < s.len() ==> m.contains_key(id_of(#[trigger] s[i])) && m[id_of(s[i])] == s[i]
}

/// The identities of the headers of `s` are pairwise distinct.
pub open spec fn distinct_ids(s: Seq<Header>) -> bool {
    forall|i: int, j: int|
        0 <= i < j < s.len() ==> id_of(#[trigger] s[i]) != id_of(#[trigger] s[j])
}

/// The set of identities of the headers of `s`.
pub open spec fn ids_of(s: Seq<Header>) -> Set<u64> {
    Set::new(|k: u64| exists|j: int| 0 <= j < s.len() && id_of(#[trigger] s[j]) == k)
}

/// A branch of store `m` rooted at genesis identity `g`: a non-empty linked
/// sequence of stored headers whose first element is the genesis header, and
/// which the backward walk reproduces exactly — the walk stops only where the
/// predecessor identity is absent from the store.
pub open spec fn is_branch(m: Map<u64, Header>, g: u64, s: Seq<Header>) -> bool {
    &&& s.len() >= 1
    &&& id_of(s[0]) == g
    &&& !m.contains_key(s[0].prev)
    &&& chain_linked(s)
    &&& chain_in_store(m, s)
}

/// The cumulative work of a branch: the summed work values of its non-genesis
/// headers, in exact integer arithmetic.
pub open spec fn works_sum(s: Seq<Header>) -> int
    decreases s.len(),
{
    if s.len() <= 1 {
        0
    } else {
        works_sum(s.drop_last()) + work_of(s.last().bits)
    }
}

/// Every non-empty prefix of a branch is itself a branch.
pub proof fn lemma_branch_prefix(m: Map<u64, Header>, g: u64, s: Seq<Header>, k: int)
    requires
        is_branch(m, g, s),
        1 <= k <= s.len(),
    ensures
        is_branch(m, g, s.take(k)),
{
    let p = s.take(k);
    assert(forall|i: int| 0 <= i < k ==> p[i] == s[i]);
}

/// Two branches with the same tip identity are the same branch: the backward
/// walk from a tip is deterministic.
pub proof fn lemma_branch_unique(m: Map<u64, Header>, g: u64, s1: Seq<Header>, s2: Seq<Header>)
    requires
        is_branch(m, g, s1),
        is_branch(m, g, s2),
        id_of(s1.last()) == id_of(s2.last()),
    ensures
        s1 == s2,
    decreases s1.len(),
{
    let t = id_of(s1.last());
    assert(m[t] == s1.last() && m[t] == s2.last());
    if s1.len() == 1 && s2.len() == 1 {
        assert(s1 =~= s2);
    } else if s1.len() == 1 {
        assert(s2.last().prev == id_of(s2[s2.len() - 2]));
        assert(m.contains_key(id_of(s2[s2.len() - 2])));
        assert(s1[0] == s1.last());
        assert(false);
    } else if s2.len() == 1 {
        assert(s1.last().prev == id_of(s1[s1.len() - 2]));
        assert(m.contains_key(id_of(s1[s1.len() - 2])));
        assert(s2[0] == s2.last());
        assert(false);
    } else {
        let d1 = s1.drop_last();
        let d2 = s2.drop_last();
        lemma_branch_prefix(m, g, s1, s1.len() - 1);
        lemma_branch_prefix(m, g, s2, s2.len() - 1);
        assert(d1 =~= s1.take(s1.len() - 1));
        assert(d2 =~= s2.take(s2.len() - 1));
        assert(id_of(d1.last()) == s1.last().prev);
        assert(id_of(d2.last()) == s2.last().prev);
        lemma_branch_unique(m, g, d1, d2);
        assert(s1 =~= s2) by {
            assert(s1.len() == s2.len());
            assert(forall|i: int| 0 <= i < s1.len() - 1 ==> s1[i] == d1[i] && s2[i] == d2[i]);
        }
    }
}

/// A branch never repeats an identity.
pub proof fn lemma_branch_distinct(m: Map<u64, Header>, g: u64, s: Seq<Header>)
    requires
        is_branch(m, g, s),
    ensures
        distinct_ids(s),
{
    assert forall|i: int, j: int| 0 <= i < j < s.len() implies id_of(#[trigger] s[i]) != id_of(
        #[trigger] s[j],
    ) by {
        if id_of(s[i]) == id_of(s[j]) {
            lemma_branch_prefix(m, g, s, i + 1);
            lemma_branch_prefix(m, g, s, j + 1);
            assert(s.take(i + 1).last() == s[i]);
            assert(s.take(j + 1).last() == s[j]);
            lemma_branch_unique(m, g, s.take(i + 1), s.take(j + 1));
            assert(s.take(i + 1).len() == s.take(j + 1).len());
        }
    }
}

/// A branch cannot be longer than the store is large.
pub proof fn lemma_branch_len_bound(m: Map<u64, Header>, g: u64, s: Seq<Header>)
    requires
        is_branch(m, g, s),
        m.dom().finite(),
    ensures
        s.len() <= m.dom().len(),
{
    broadcast use vstd::seq_lib::seq_to_set_is_finite;

    let ids = s.map_values(|h: Header| id_of(h));
    lemma_branch_distinct(m, g, s);
    assert(ids.no_duplicates()) by {
        assert(forall|i: int, j: int|
            0 <= i < j < s.len() ==> id_of(#[trigger] s[i]) != id_of(#[trigger] s[j]));
        assert(forall|i: int| 0 <= i < ids.len() ==> ids[i] == id_of(s[i]));
    }
    ids.unique_seq_to_set();
    assert(ids.to_set().subset_of(m.dom())) by {
        assert forall|k: u64| ids.to_set().contains(k) implies m.dom().contains(k) by {
            let i = choose|i: int| 0 <= i < ids.len() && ids[i] == k;
            assert(m.contains_key(id_of(s[i])));
        }
    }
    lemma_len_subset(ids.to_set(), m.dom());
}

/// One step of the cumulative sum, as the implementation accumulates it.
pub proof fn lemma_works_sum_step(s: Seq<Header>, i: int)
    requires
        1 <= i < s.len(),
    ensures
        works_sum(s.take(i + 1)) == works_sum(s.take(i)) + work_of(s[i].bits),
{
    assert(s.take(i + 1).drop_last() =~= s.take(i));
    assert(s.take(i + 1).last() == s[i]);
}

/// Cumulative work over a whole sequence equals the sum over its full prefix.
pub proof fn lemma_works_sum_all(s: Seq<Header>)
    ensures
        works_sum(s.take(s.len() as int)) == works_sum(s),
{
    assert(s.take(s.len() as int) =~= s);
}

/// A strict prefix of a chain of positive per-header works has strictly less
/// cumulative work.
pub proof fn lemma_works_sum_take_lt(s: Seq<Header>, k: int)
    requires
        1 <= k < s.len(),
        forall|i: int| 1 <= i < s.len() ==> work_of((#[trigger] s[i]).bits) >= 1,
    ensures
        works_sum(s.take(k)) < works_sum(s),
    decreases s.len(),
{
    let d = s.drop_last();
    assert(work_of(s[s.len() - 1].bits) >= 1);
    if k == s.len() - 1 {
        assert(s.take(k) =~= d);
    } else {
        assert(d.take(k) =~= s.take(k));
        assert(forall|i: int| 1 <= i < d.len() ==> d[i] == s[i]);
        lemma_works_sum_take_lt(d, k);
    }
}

/// When the store holds exactly the headers of one branch, that branch has
/// strictly more cumulative work than any other branch — so re-importing a
/// rolled-back suffix, absent any competing fork, restores the original tip.
pub proof fn lemma_no_fork_unique_best(m: Map<u64, Header>, g: u64, c: Seq<Header>)
    requires
        is_branch(m, g, c),
        m.dom() == ids_of(c),
        forall|i: int| 1 <= i < c.len() ==> work_of((#[trigger] c[i]).bits) >= 1,
    ensures
        forall|s: Seq<Header>|
            is_branch(m, g, s) && s != c ==> works_sum(s) < works_sum(c),
{
    assert forall|s: Seq<Header>| is_branch(m, g, s) && s != c implies works_sum(s) < works_sum(
        c,
    ) by {
        lemma_branch_is_prefix(m, g, c, s);
        assert(s.len() < c.len()) by {
            if s.len() == c.len() {
                assert(s =~= c.take(c.len() as int));
                assert(c.take(c.len() as int) =~= c);
            }
        }
        lemma_works_sum_take_lt(c, s.len() as int);
        assert(works_sum(s) == works_sum(c.take(s.len() as int))) by {
            assert(s =~= c.take(s.len() as int));
        }
    }
}

/// When the store holds exactly the headers of branch `c`, every branch is a
/// prefix of `c`.
pub proof fn lemma_branch_is_prefix(m: Map<u64, Header>, g: u64, c: Seq<Header>, s: Seq<Header>)
    requires
        is_branch(m, g, c),
        is_branch(m, g, s),
        m.dom() == ids_of(c),
    ensures
        s.len() <= c.len(),
        s == c.take(s.len() as int),
{
    assert(s.len() <= c.len()) by {
        if s.len() > c.len() {
            lemma_branch_prefix_elem(m, g, c, s, c.len() as int);
        }
    }
    assert forall|i: int| 0 <= i < s.len() implies s[i] == c[i] by {
        lemma_branch_prefix_elem(m, g, c, s, i);
    }
    assert(s =~= c.take(s.len() as int));
}

/// Element `i` of any branch agrees with element `i` of `c` when the store
/// holds exactly the headers of `c`.
proof fn lemma_branch_prefix_elem(
    m: Map<u64, Header>,
    g: u64,
    c: Seq<Header>,
    s: Seq<Header>,
    i: int,
)
    requires
        is_branch(m, g, c),
        is_branch(m, g, s),
        m.dom() == ids_of(c),
        0 <= i < s.len(),
    ensures
        i < c.len(),
        s[i] == c[i],
    decreases i,
{
    lemma_branch_distinct(m, g, c);
    if i == 0 {
        assert(m[g] == s[0] && m[g] == c[0]);
    } else {
        lemma_branch_prefix_elem(m, g, c, s, i - 1);
        assert(s[i].prev == id_of(s[i - 1]));
        assert(m.contains_key(id_of(s[i - 1])));
        let k = id_of(s[i]);
        assert(m.contains_key(k));
        assert(ids_of(c).contains(k)) by {
            broadcast use vstd::set::group_set_axioms;

            assert(m.dom().contains(k));
        }
        let j = choose|j: int| 0 <= j < c.len() && id_of(#[trigger] c[j]) == k;
        assert(id_of(c[j]) == k);
        assert(m[k] == s[i] && m[k] == c[j]);
        if j == 0 {
            assert(c[0].prev == s[i].prev);
            assert(false);
        } else {
            assert(c[j].prev == id_of(c[j - 1]));
            assert(id_of(c[j - 1]) == id_of(c[i - 1]));
            assert(j - 1 == i - 1) by {
                if j - 1 < i - 1 {
                    assert(id_of(c[j - 1]) != id_of(c[i - 1]));
                } else if i - 1 < j - 1 {
                    assert(id_of(c[i - 1]) != id_of(c[j - 1]));
                }
            }
        }
    }
}

} // verus!
