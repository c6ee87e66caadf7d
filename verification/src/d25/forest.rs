//! The mathematical model of a disjoint-set forest: a sequence of
//! `(parent, rank)` cells, the representative each index resolves to, and
//! the facts about linking two trees that the executable code relies on.

use vstd::prelude::*;
use vstd::arithmetic::power2::{pow2, lemma_pow2_unfold, lemma_pow2_strictly_increases};

verus! {

/// One cell of the forest: where the element points, and the height bound
/// that union-by-rank keeps for it.
#[derive(Clone, Copy, Debug, PartialEq, Eq)]
pub struct UnionRank {
    pub parent: usize,
    pub rank: usize,
}

/// `i` is the representative of its own tree.
pub open spec fn is_root(s: Seq<UnionRank>, i: int) -> bool {
    0 <= i < s.len() && s[i].parent == i
}

/// `i` points at another cell of strictly higher rank.
pub open spec fn climbs(s: Seq<UnionRank>, i: int) -> bool {
    &&& 0 <= i < s.len()
    &&& s[i].parent != i
    &&& s[i].parent < s.len()
    &&& s[i].rank < s[s[i].parent as int].rank
}

/// The representative that `i` resolves to by following parent links.
pub open spec fn root_of(s: Seq<UnionRank>, i: int) -> int
    decreases usize::MAX - s[i].rank,
{
    if climbs(s, i) {
        root_of(s, s[i].parent as int)
    } else {
        i
    }
}

/// The number of parent links between `i` and its representative.
pub open spec fn depth(s: Seq<UnionRank>, i: int) -> nat
    decreases usize::MAX - s[i].rank,
{
    if climbs(s, i) {
        1 + depth(s, s[i].parent as int)
    } else {
        0
    }
}

/// How many of the first `k` elements resolve to `r`.
pub open spec fn count_in(s: Seq<UnionRank>, r: int, k: nat) -> nat
    decreases k,
{
    if k == 0 {
        0
    } else {
        count_in(s, r, (k - 1) as nat) + if root_of(s, k - 1) == r {
            1nat
        } else {
            0nat
        }
    }
}

/// The number of elements in the set that `r` represents.
pub open spec fn set_size(s: Seq<UnionRank>, r: int) -> nat {
    count_in(s, r, s.len())
}

/// How many of the first `k` elements are representatives.
pub open spec fn count_roots(s: Seq<UnionRank>, k: nat) -> nat
    decreases k,
{
    if k == 0 {
        0
    } else {
        count_roots(s, (k - 1) as nat) + if is_root(s, k - 1) {
            1nat
        } else {
            0nat
        }
    }
}

/// The number of disjoint sets in the forest.
pub open spec fn num_sets(s: Seq<UnionRank>) -> nat {
    count_roots(s, s.len())
}

/// `a` and `b` belong to the same set.
pub open spec fn same_set(s: Seq<UnionRank>, a: int, b: int) -> bool {
    root_of(s, a) == root_of(s, b)
}

/// The forest invariant: every cell is a representative or points at a cell
/// of higher rank, and a representative of rank `k` stands for at least
/// `2^k` elements.
pub open spec fn well_formed(s: Seq<UnionRank>) -> bool {
    &&& s.len() <= usize::MAX
    &&& forall|i: int| 0 <= i < s.len() ==> is_root(s, i) || climbs(s, i)
    &&& forall|r: int| is_root(s, r) ==> pow2(s[r].rank as nat) <= set_size(s, r)
}

/// The forest of `n` one-element sets.
pub open spec fn singletons(n: nat) -> Seq<UnionRank> {
    Seq::new(n, |i: int| UnionRank { parent: i as usize, rank: 0 })
}

/// Hangs the representative `lo` under the representative `hi`, raising the
/// rank of `hi` when both had the same rank.
pub open spec fn link(s: Seq<UnionRank>, hi: int, lo: int) -> Seq<UnionRank> {
    let hung = s.update(lo, UnionRank { parent: hi as usize, rank: s[lo].rank });
    if s[hi].rank == s[lo].rank {
        hung.update(hi, UnionRank { parent: s[hi].parent, rank: (s[hi].rank + 1) as usize })
    } else {
        hung
    }
}

/// The forest after merging the sets of `a` and `b`: unchanged when they
/// already share a representative, otherwise the representative of lower
/// rank hangs under the other (that of `b` under that of `a` on a tie).
pub open spec fn union_spec(s: Seq<UnionRank>, a: int, b: int) -> Seq<UnionRank> {
    let ra = root_of(s, a);
    let rb = root_of(s, b);
    if ra == rb {
        s
    } else if s[ra].rank < s[rb].rank {
        link(s, rb, ra)
    } else {
        link(s, ra, rb)
    }
}

/// Every element of a well-formed forest resolves to a representative.
pub proof fn lemma_root_is_root(s: Seq<UnionRank>, i: int)
    requires
        well_formed(s),
        0 <= i < s.len(),
    ensures
        is_root(s, root_of(s, i)),
        root_of(s, root_of(s, i)) == root_of(s, i),
        s[i].rank <= s[root_of(s, i)].rank,
    decreases usize::MAX - s[i].rank,
{
    if climbs(s, i) {
        lemma_root_is_root(s, s[i].parent as int);
    }
}

/// A chain of parent links is no longer than the rank of the
/// representative it ends in.
pub proof fn lemma_depth_below_rank(s: Seq<UnionRank>, i: int)
    requires
        well_formed(s),
        0 <= i < s.len(),
    ensures
        depth(s, i) + s[i].rank <= s[root_of(s, i)].rank,
    decreases usize::MAX - s[i].rank,
{
    if climbs(s, i) {
        lemma_depth_below_rank(s, s[i].parent as int);
    }
}

/// No set holds more elements than were counted.
pub proof fn lemma_count_in_bounded(s: Seq<UnionRank>, r: int, k: nat)
    ensures
        count_in(s, r, k) <= k,
    decreases k,
{
    if k > 0 {
        lemma_count_in_bounded(s, r, (k - 1) as nat);
    }
}

/// A power of two exceeds its exponent.
pub proof fn lemma_pow2_exceeds(e: nat)
    ensures
        e < pow2(e),
    decreases e,
{
    if e > 0 {
        lemma_pow2_exceeds((e - 1) as nat);
        lemma_pow2_unfold(e);
    } else {
        assert(pow2(0) == 1) by {
            vstd::arithmetic::power2::lemma2_to64();
        }
    }
}

/// Powers of two grow with the exponent.
pub proof fn lemma_pow2_monotone(a: nat, b: nat)
    requires
        a <= b,
    ensures
        pow2(a) <= pow2(b),
{
    if a < b {
        lemma_pow2_strictly_increases(a, b);
    }
}

/// The rank of a representative is below the number of elements, so it can
/// always be raised by one.
pub proof fn lemma_rank_below_len(s: Seq<UnionRank>, r: int)
    requires
        well_formed(s),
        is_root(s, r),
    ensures
        s[r].rank < s.len(),
{
    lemma_pow2_exceeds(s[r].rank as nat);
    lemma_count_in_bounded(s, r, s.len());
}

/// In a well-formed forest of `n` elements no chain of parent links is
/// longer than the binary logarithm of `n`.
pub proof fn lemma_depth_is_logarithmic(s: Seq<UnionRank>, i: int)
    requires
        well_formed(s),
        0 <= i < s.len(),
    ensures
        pow2(depth(s, i)) <= s.len(),
{
    let r = root_of(s, i);
    lemma_root_is_root(s, i);
    lemma_depth_below_rank(s, i);
    lemma_pow2_monotone(depth(s, i), s[r].rank as nat);
    lemma_count_in_bounded(s, r, s.len());
}

/// In the forest of one-element sets every element is its own
/// representative.
pub proof fn lemma_singletons_count(n: nat, r: int, k: nat)
    requires
        k <= n <= usize::MAX,
    ensures
        count_in(singletons(n), r, k) == if 0 <= r < k {
            1nat
        } else {
            0nat
        },
        count_roots(singletons(n), k) == k,
    decreases k,
{
    if k > 0 {
        lemma_singletons_count(n, r, (k - 1) as nat);
        assert(!climbs(singletons(n), k - 1));
        assert(is_root(singletons(n), k - 1));
    }
}

/// The forest of one-element sets is well formed and has `n` sets.
pub proof fn lemma_singletons_well_formed(n: nat)
    requires
        n <= usize::MAX,
    ensures
        well_formed(singletons(n)),
        num_sets(singletons(n)) == n,
        forall|i: int| 0 <= i < n ==> root_of(singletons(n), i) == i,
{
    let s = singletons(n);
    assert forall|r: int| is_root(s, r) implies pow2(s[r].rank as nat) <= set_size(s, r) by {
        lemma_singletons_count(n, r, n);
        vstd::arithmetic::power2::lemma2_to64();
    }
    lemma_singletons_count(n, 0, n);
    assert forall|i: int| 0 <= i < n implies root_of(s, i) == i by {
        assert(!climbs(s, i));
    }
}

/// What is asked of two representatives before one is hung under the other.
pub open spec fn linkable(s: Seq<UnionRank>, hi: int, lo: int) -> bool {
    &&& well_formed(s)
    &&& is_root(s, hi)
    &&& is_root(s, lo)
    &&& hi != lo
    &&& s[hi].rank >= s[lo].rank
}

/// After a link every element resolves as before, but for those of the
/// lower tree, which now resolve to the upper representative.
pub proof fn lemma_link_root(s: Seq<UnionRank>, hi: int, lo: int, j: int)
    requires
        linkable(s, hi, lo),
        0 <= j < s.len(),
    ensures
        root_of(link(s, hi, lo), j) == if root_of(s, j) == lo {
            hi
        } else {
            root_of(s, j)
        },
        is_root(link(s, hi, lo), j) || climbs(link(s, hi, lo), j),
    decreases usize::MAX - s[j].rank,
{
    let t = link(s, hi, lo);
    lemma_rank_below_len(s, hi);
    assert(!climbs(t, hi));
    assert(root_of(t, hi) == hi);
    if j == lo {
        assert(climbs(t, lo));
        assert(root_of(t, lo) == root_of(t, hi));
        assert(!climbs(s, lo));
    } else if is_root(s, j) {
        assert(!climbs(s, j));
        assert(!climbs(t, j));
    } else {
        let p = s[j].parent as int;
        assert(climbs(s, j));
        lemma_link_root(s, hi, lo, p);
        assert(t[j] == s[j]);
        assert(t[p].rank >= s[p].rank);
        assert(climbs(t, j));
    }
}

/// After a link the upper representative stands for both sets, the lower
/// one for none, and every other set keeps its elements.
pub proof fn lemma_link_count(s: Seq<UnionRank>, hi: int, lo: int, r: int, k: nat)
    requires
        linkable(s, hi, lo),
        k <= s.len(),
    ensures
        count_in(link(s, hi, lo), r, k) == if r == hi {
            count_in(s, hi, k) + count_in(s, lo, k)
        } else if r == lo {
            0nat
        } else {
            count_in(s, r, k)
        },
        count_roots(link(s, hi, lo), k) == count_roots(s, k) - if lo < k {
            1nat
        } else {
            0nat
        },
    decreases k,
{
    if k > 0 {
        lemma_link_count(s, hi, lo, r, (k - 1) as nat);
        lemma_link_root(s, hi, lo, k - 1);
        lemma_rank_below_len(s, hi);
        let t = link(s, hi, lo);
        assert(is_root(t, k - 1) <==> (is_root(s, k - 1) && k - 1 != lo));
    }
}

/// A link keeps the forest well formed and leaves one set fewer.
pub proof fn lemma_link_well_formed(s: Seq<UnionRank>, hi: int, lo: int)
    requires
        linkable(s, hi, lo),
    ensures
        well_formed(link(s, hi, lo)),
        link(s, hi, lo).len() == s.len(),
        num_sets(link(s, hi, lo)) + 1 == num_sets(s),
        forall|j: int|
            0 <= j < s.len() ==> #[trigger] root_of(link(s, hi, lo), j) == if root_of(s, j) == lo {
                hi
            } else {
                root_of(s, j)
            },
{
    let t = link(s, hi, lo);
    lemma_rank_below_len(s, hi);
    assert forall|j: int| 0 <= j < t.len() implies is_root(t, j) || climbs(t, j) by {
        lemma_link_root(s, hi, lo, j);
    }
    assert forall|j: int| 0 <= j < s.len() implies #[trigger] root_of(t, j) == if root_of(s, j)
        == lo {
        hi
    } else {
        root_of(s, j)
    } by {
        lemma_link_root(s, hi, lo, j);
    }
    assert forall|r: int| is_root(t, r) implies pow2(t[r].rank as nat) <= set_size(t, r) by {
        lemma_link_count(s, hi, lo, r, s.len());
        if r == hi {
            if s[hi].rank == s[lo].rank {
                lemma_pow2_unfold((s[hi].rank + 1) as nat);
            }
        } else {
            assert(is_root(s, r));
        }
    }
    lemma_link_count(s, hi, lo, 0, s.len());
}

/// Representatives among the first `k` elements are counted: `r` adds one
/// to the count if it is one of them.
pub open spec fn seen(s: Seq<UnionRank>, r: int, k: nat) -> nat {
    if is_root(s, r) && r < k {
        1
    } else {
        0
    }
}

/// Three different representatives make three sets; with fewer, pass an
/// index that is no representative.
pub proof fn lemma_roots_counted(s: Seq<UnionRank>, a: int, b: int, c: int, k: nat)
    requires
        a != b,
        a != c,
        b != c,
    ensures
        count_roots(s, k) >= seen(s, a, k) + seen(s, b, k) + seen(s, c, k),
    decreases k,
{
    if k > 0 {
        lemma_roots_counted(s, a, b, c, (k - 1) as nat);
    }
}

/// Merging keeps the forest well formed; two elements share a set
/// afterwards exactly if they did before or the merge joined their sets.
pub proof fn lemma_union_spec(s: Seq<UnionRank>, a: int, b: int)
    requires
        well_formed(s),
        0 <= a < s.len(),
        0 <= b < s.len(),
    ensures
        well_formed(union_spec(s, a, b)),
        union_spec(s, a, b).len() == s.len(),
        num_sets(union_spec(s, a, b)) == if same_set(s, a, b) {
            num_sets(s)
        } else {
            (num_sets(s) - 1) as nat
        },
        !same_set(s, a, b) ==> num_sets(s) >= 2,
        forall|x: int, y: int|
            0 <= x < s.len() && 0 <= y < s.len() ==> (#[trigger] same_set(union_spec(s, a, b), x, y)
                <==> same_set(s, x, y) || (same_set(s, x, a) && same_set(s, y, b)) || (same_set(
                s,
                x,
                b,
            ) && same_set(s, y, a))),
{
    let ra = root_of(s, a);
    let rb = root_of(s, b);
    lemma_root_is_root(s, a);
    lemma_root_is_root(s, b);
    if ra != rb {
        lemma_roots_counted(s, ra, rb, -1, s.len());
        if s[ra].rank < s[rb].rank {
            lemma_link_well_formed(s, rb, ra);
        } else {
            lemma_link_well_formed(s, ra, rb);
        }
    }
}

} // verus!
