//! What a run of merges means: two elements share a representative exactly
//! if a chain of merged pairs leads from one to the other.

use vstd::prelude::*;
use vstd::arithmetic::power2::pow2;
use crate::d25::forest::{
    UnionRank, well_formed, singletons, union_spec, same_set, lemma_union_spec,
    lemma_singletons_well_formed, depth, lemma_depth_is_logarithmic,
};

verus! {

/// The forest that `n` one-element sets become under the merges `unions`,
/// taken in order.
pub open spec fn after_unions(n: nat, unions: Seq<(int, int)>) -> Seq<UnionRank>
    decreases unions.len(),
{
    if unions.len() == 0 {
        singletons(n)
    } else {
        union_spec(after_unions(n, unions.drop_last()), unions.last().0, unions.last().1)
    }
}

/// Some merge named `x` and `y`, in either order.
pub open spec fn joined(unions: Seq<(int, int)>, x: int, y: int) -> bool {
    exists|k: int| 0 <= k < unions.len() && (#[trigger] unions[k] == (x, y) || unions[k] == (y, x))
}

/// Each element of `path` was merged with the next.
pub open spec fn is_chain(unions: Seq<(int, int)>, path: Seq<int>) -> bool {
    &&& path.len() >= 1
    &&& forall|i: int| 0 <= i < path.len() - 1 ==> joined(unions, #[trigger] path[i], path[i + 1])
}

/// A chain of merges leads from `a` to `b`.
pub open spec fn connected(unions: Seq<(int, int)>, a: int, b: int) -> bool {
    exists|path: Seq<int>| #[trigger] is_chain(unions, path) && path.first() == a && path.last() == b
}

/// Every merge names two of the `n` elements.
pub open spec fn unions_in_range(n: nat, unions: Seq<(int, int)>) -> bool {
    forall|k: int| 0 <= k < unions.len() ==> 0 <= (#[trigger] unions[k]).0 < n && 0 <= unions[k].1 < n
}

proof fn lemma_chain_grows(unions: Seq<(int, int)>, path: Seq<int>)
    requires
        unions.len() > 0,
        is_chain(unions.drop_last(), path),
    ensures
        is_chain(unions, path),
{
    let prev = unions.drop_last();
    assert forall|i: int| 0 <= i < path.len() - 1 implies joined(unions, #[trigger] path[i], path[i + 1]) by {
        assert(joined(prev, path[i], path[i + 1]));
        let k = choose|k: int| 0 <= k < prev.len() && (#[trigger] prev[k] == (path[i], path[i + 1]) || prev[k] == (path[i + 1], path[i]));
        assert(unions[k] == prev[k]);
    }
}

proof fn lemma_chain_through_last(unions: Seq<(int, int)>, left: Seq<int>, right: Seq<int>)
    requires
        unions.len() > 0,
        is_chain(unions.drop_last(), left),
        is_chain(unions.drop_last(), right),
        (left.last(), right.last()) == unions.last() || (right.last(), left.last()) == unions.last(),
    ensures
        is_chain(unions, left + right.reverse()),
        (left + right.reverse()).first() == left.first(),
        (left + right.reverse()).last() == right.first(),
{
    lemma_chain_grows(unions, left);
    lemma_chain_grows(unions, right);
    let back = right.reverse();
    let path = left + back;
    assert forall|i: int| 0 <= i < path.len() - 1 implies joined(unions, #[trigger] path[i], path[i + 1]) by {
        if i < left.len() - 1 {
            assert(joined(unions, left[i], left[i + 1]));
        } else if i == left.len() - 1 {
            assert(path[i] == left.last());
            assert(path[i + 1] == right.last());
            assert(unions[unions.len() - 1] == unions.last());
        } else {
            let j = right.len() - 1 - (i + 1 - left.len());
            assert(path[i + 1] == right[j]);
            assert(path[i] == right[j + 1]);
            assert(joined(unions, right[j], right[j + 1]));
            let k = choose|k: int| 0 <= k < unions.len() && (#[trigger] unions[k] == (right[j], right[j + 1]) || unions[k] == (right[j + 1], right[j]));
            assert(unions[k] == (path[i + 1], path[i]) || unions[k] == (path[i], path[i + 1]));
        }
    }
}

proof fn lemma_chain_stays_in_set(n: nat, unions: Seq<(int, int)>, path: Seq<int>, m: int)
    requires
        n <= usize::MAX,
        unions.len() > 0,
        unions_in_range(n, unions),
        well_formed(after_unions(n, unions.drop_last())),
        after_unions(n, unions.drop_last()).len() == n,
        forall|a: int, b: int|
            0 <= a < n && 0 <= b < n ==> (#[trigger] same_set(after_unions(n, unions.drop_last()), a, b)
                <==> connected(unions.drop_last(), a, b)),
        is_chain(unions, path),
        0 <= path.first() < n,
        0 <= m < path.len(),
    ensures
        0 <= path[m] < n,
        same_set(after_unions(n, unions), path.first(), path[m]),
    decreases m,
{
    let prev = unions.drop_last();
    let s = after_unions(n, prev);
    let u = unions.last().0;
    let v = unions.last().1;
    assert(unions[unions.len() - 1] == unions.last());
    lemma_union_spec(s, u, v);
    if m > 0 {
        lemma_chain_stays_in_set(n, unions, path, m - 1);
        let x = path[m - 1];
        let y = path[m];
        assert(joined(unions, x, y));
        let k = choose|k: int| 0 <= k < unions.len() && (#[trigger] unions[k] == (x, y) || unions[k] == (y, x));
        assert(0 <= y < n);
        if k < prev.len() {
            assert(prev[k] == unions[k]);
            let pair = seq![x, y];
            assert(is_chain(prev, pair)) by {
                assert forall|i: int| 0 <= i < pair.len() - 1 implies joined(prev, #[trigger] pair[i], pair[i + 1]) by {
                    assert(prev[k] == (x, y) || prev[k] == (y, x));
                }
            }
            assert(pair.first() == x && pair.last() == y);
            assert(connected(prev, x, y));
            assert(same_set(s, x, y));
            assert(same_set(after_unions(n, unions), x, y));
        } else {
            assert(same_set(s, u, u) && same_set(s, v, v));
            assert(same_set(after_unions(n, unions), x, y));
        }
    } else {
        assert(same_set(s, path[0], path[0]));
    }
}

/// After any run of merges on `n` one-element sets, two elements resolve to
/// the same representative if and only if a chain of merged pairs connects
/// them.
pub proof fn lemma_same_set_iff_connected(n: nat, unions: Seq<(int, int)>)
    requires
        n <= usize::MAX,
        unions_in_range(n, unions),
    ensures
        well_formed(after_unions(n, unions)),
        after_unions(n, unions).len() == n,
        forall|a: int, b: int|
            0 <= a < n && 0 <= b < n ==> (#[trigger] same_set(after_unions(n, unions), a, b)
                <==> connected(unions, a, b)),
    decreases unions.len(),
{
    let now = after_unions(n, unions);
    if unions.len() == 0 {
        lemma_singletons_well_formed(n);
        assert forall|a: int, b: int| 0 <= a < n && 0 <= b < n implies (#[trigger] same_set(now, a, b)
            <==> connected(unions, a, b)) by {
            if a == b {
                let path = seq![a];
                assert(is_chain(unions, path));
                assert(path.first() == a && path.last() == b);
            }
            if connected(unions, a, b) {
                let path = choose|path: Seq<int>| #[trigger] is_chain(unions, path) && path.first() == a && path.last() == b;
                if path.len() > 1 {
                    assert(joined(unions, path[0], path[1]));
                }
            }
        }
    } else {
        let prev = unions.drop_last();
        let s = after_unions(n, prev);
        let u = unions.last().0;
        let v = unions.last().1;
        assert(unions[unions.len() - 1] == unions.last());
        assert(unions_in_range(n, prev)) by {
            assert forall|k: int| 0 <= k < prev.len() implies 0 <= (#[trigger] prev[k]).0 < n && 0 <= prev[k].1 < n by {
                assert(prev[k] == unions[k]);
            }
        }
        lemma_same_set_iff_connected(n, prev);
        lemma_union_spec(s, u, v);
        assert forall|a: int, b: int| 0 <= a < n && 0 <= b < n implies (#[trigger] same_set(now, a, b)
            <==> connected(unions, a, b)) by {
            if same_set(now, a, b) {
                if same_set(s, a, b) {
                    let path = choose|path: Seq<int>| #[trigger] is_chain(prev, path) && path.first() == a && path.last() == b;
                    lemma_chain_grows(unions, path);
                } else {
                    let (p, q) = if same_set(s, a, u) && same_set(s, b, v) {
                        (u, v)
                    } else {
                        (v, u)
                    };
                    assert(same_set(s, a, p) && same_set(s, b, q));
                    let left = choose|path: Seq<int>| #[trigger] is_chain(prev, path) && path.first() == a && path.last() == p;
                    let right = choose|path: Seq<int>| #[trigger] is_chain(prev, path) && path.first() == b && path.last() == q;
                    lemma_chain_through_last(unions, left, right);
                    assert(is_chain(unions, left + right.reverse()));
                }
            }
            if connected(unions, a, b) {
                let path = choose|path: Seq<int>| #[trigger] is_chain(unions, path) && path.first() == a && path.last() == b;
                lemma_chain_stays_in_set(n, unions, path, path.len() - 1);
            }
        }
    }
}

/// After any run of merges on `n` one-element sets, no chain of parent
/// links is longer than the binary logarithm of `n`.
pub proof fn lemma_depth_after_unions(n: nat, unions: Seq<(int, int)>, i: int)
    requires
        n <= usize::MAX,
        unions_in_range(n, unions),
        0 <= i < n,
    ensures
        pow2(depth(after_unions(n, unions), i)) <= n,
{
    lemma_same_set_iff_connected(n, unions);
    lemma_depth_is_logarithmic(after_unions(n, unions), i);
}

} // verus!
