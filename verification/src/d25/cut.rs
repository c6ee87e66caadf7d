//! Judging a finished trial: the edges that cross between the two sets, the
//! sizes of the sets, and the search for a cut of a given size.

use vstd::prelude::*;
use crate::d25::forest::{
    UnionRank,
    is_root,
    root_of,
    well_formed,
    same_set,
    num_sets,
    count_roots,
    count_in,
    set_size,
    lemma_root_is_root,
    lemma_roots_counted,
};
use crate::d25::karger::{Graph, edges_in_range, karger, karger_spec};
use crate::d25::union_find::UnionFind;

verus! {

/// How many of the first `k` edges have their endpoints in different sets.
pub open spec fn cut_size(edges: Seq<(usize, usize)>, s: Seq<UnionRank>, k: nat) -> nat
    decreases k,
{
    if k == 0 {
        0
    } else {
        cut_size(edges, s, (k - 1) as nat) + if same_set(
            s,
            edges[k - 1].0 as int,
            edges[k - 1].1 as int,
        ) {
            0nat
        } else {
            1nat
        }
    }
}

/// The side of the partition that `v` lies on: whether it is in the set of
/// vertex 0.
pub open spec fn side(s: Seq<UnionRank>, v: int) -> bool {
    root_of(s, v) == root_of(s, 0)
}

/// How many of the first `k` edges lead from one side of the partition to
/// the other.
pub open spec fn crossing(edges: Seq<(usize, usize)>, s: Seq<UnionRank>, k: nat) -> nat
    decreases k,
{
    if k == 0 {
        0
    } else {
        crossing(edges, s, (k - 1) as nat) + if side(s, edges[k - 1].0 as int) == side(
            s,
            edges[k - 1].1 as int,
        ) {
            0nat
        } else {
            1nat
        }
    }
}

/// The product of the sizes of the sets whose representatives are among
/// the first `k` elements.
pub open spec fn sizes_product(s: Seq<UnionRank>, k: nat) -> nat
    decreases k,
{
    if k == 0 {
        1
    } else {
        sizes_product(s, (k - 1) as nat) * if is_root(s, k - 1) {
            set_size(s, k - 1)
        } else {
            1nat
        }
    }
}

/// With exactly two sets, every vertex is in the set of vertex 0 or in the
/// one other set, so an edge joins different sets exactly if it leads from
/// one side to the other: counting the cut by sides gives the same number
/// as counting it by representatives.
pub proof fn lemma_cut_is_crossing(edges: Seq<(usize, usize)>, s: Seq<UnionRank>, k: nat)
    requires
        well_formed(s),
        num_sets(s) == 2,
        edges_in_range(edges, s.len()),
        k <= edges.len(),
    ensures
        cut_size(edges, s, k) == crossing(edges, s, k),
    decreases k,
{
    if k > 0 {
        lemma_cut_is_crossing(edges, s, (k - 1) as nat);
        let u = edges[k - 1].0 as int;
        let v = edges[k - 1].1 as int;
        lemma_root_is_root(s, u);
        lemma_root_is_root(s, v);
        lemma_root_is_root(s, 0);
        if !same_set(s, u, v) && side(s, u) == side(s, v) {
            lemma_roots_counted(s, root_of(s, u), root_of(s, v), root_of(s, 0), s.len());
        }
    }
}

/// With exactly two sets, represented by `r0` and `r1`, each vertex is in
/// one of them.
pub proof fn lemma_two_sets_cover(s: Seq<UnionRank>, r0: int, r1: int, k: nat)
    requires
        well_formed(s),
        num_sets(s) == 2,
        is_root(s, r0),
        is_root(s, r1),
        r0 != r1,
        k <= s.len(),
    ensures
        count_in(s, r0, k) + count_in(s, r1, k) == k,
    decreases k,
{
    if k > 0 {
        lemma_two_sets_cover(s, r0, r1, (k - 1) as nat);
        lemma_root_is_root(s, k - 1);
        if root_of(s, k - 1) != r0 && root_of(s, k - 1) != r1 {
            lemma_roots_counted(s, r0, r1, root_of(s, k - 1), s.len());
        }
    }
}

proof fn lemma_sizes_product_steps(s: Seq<UnionRank>, k: nat)
    requires
        k <= s.len(),
    ensures
        count_roots(s, k) == 0 ==> sizes_product(s, k) == 1,
        count_roots(s, k) == 1 ==> exists|r: int|
            0 <= r < k && is_root(s, r) && sizes_product(s, k) == #[trigger] set_size(s, r),
        count_roots(s, k) == 2 ==> exists|r0: int, r1: int|
            0 <= r0 < r1 < k && is_root(s, r0) && is_root(s, r1) && sizes_product(s, k)
                == #[trigger] set_size(s, r0) * #[trigger] set_size(s, r1),
    decreases k,
{
    if k > 0 {
        lemma_sizes_product_steps(s, (k - 1) as nat);
        let before = count_roots(s, (k - 1) as nat);
        if is_root(s, k - 1) {
            if before == 0 {
                assert(sizes_product(s, k) == set_size(s, k - 1));
            } else if before == 1 {
                let r = choose|r: int|
                    0 <= r < k - 1 && is_root(s, r) && sizes_product(s, (k - 1) as nat)
                        == #[trigger] set_size(s, r);
                assert(sizes_product(s, k) == set_size(s, r) * set_size(s, k - 1));
            }
        } else {
            assert(sizes_product(s, k) == sizes_product(s, (k - 1) as nat) * 1);
            if before == 1 {
                let r = choose|r: int|
                    0 <= r < k - 1 && is_root(s, r) && sizes_product(s, (k - 1) as nat)
                        == #[trigger] set_size(s, r);
                assert(0 <= r < k && is_root(s, r) && sizes_product(s, k) == set_size(s, r));
            } else if before == 2 {
                let (r0, r1) = choose|r0: int, r1: int|
                    0 <= r0 < r1 < k - 1 && is_root(s, r0) && is_root(s, r1) && sizes_product(
                        s,
                        (k - 1) as nat,
                    ) == #[trigger] set_size(s, r0) * #[trigger] set_size(s, r1);
                assert(0 <= r0 < r1 < k && is_root(s, r0) && is_root(s, r1) && sizes_product(s, k)
                    == set_size(s, r0) * set_size(s, r1));
            }
        }
    }
}

/// With exactly two sets, represented by `r0` and `r1`, the product of all
/// set sizes is the size of the one times the size of the other, and the
/// two sizes add up to the number of vertices.
pub proof fn lemma_two_sets_product(s: Seq<UnionRank>, r0: int, r1: int)
    requires
        well_formed(s),
        num_sets(s) == 2,
        is_root(s, r0),
        is_root(s, r1),
        r0 != r1,
    ensures
        sizes_product(s, s.len()) == set_size(s, r0) * set_size(s, r1),
        set_size(s, r0) + set_size(s, r1) == s.len(),
{
    lemma_two_sets_cover(s, r0, r1, s.len());
    lemma_sizes_product_steps(s, s.len());
    let (a, b) = choose|a: int, b: int|
        0 <= a < b < s.len() && is_root(s, a) && is_root(s, b) && sizes_product(s, s.len())
            == #[trigger] set_size(s, a) * #[trigger] set_size(s, b);
    if a != r0 && a != r1 {
        lemma_roots_counted(s, r0, r1, a, s.len());
    }
    if b != r0 && b != r1 {
        lemma_roots_counted(s, r0, r1, b, s.len());
    }
    assert(set_size(s, a) * set_size(s, b) == set_size(s, b) * set_size(s, a)) by (nonlinear_arith);
}

/// The number of edges of `graph` whose endpoints lie in different sets.
pub fn count_cut_edges(graph: &Graph, subsets: &UnionFind) -> (cut: usize)
    requires
        graph.wf(),
        subsets.wf(),
        subsets@.len() == graph.n_vertices,
    ensures
        cut == cut_size(graph.edges@, subsets@, graph.edges@.len()),
{
    let mut cut: usize = 0;
    let mut e: usize = 0;
    while e < graph.edges.len()
        invariant
            graph.wf(),
            subsets.wf(),
            subsets@.len() == graph.n_vertices,
            e <= graph.edges@.len(),
            cut == cut_size(graph.edges@, subsets@, e as nat),
            cut <= e,
        decreases graph.edges@.len() - e,
    {
        let edge = graph.edges[e];
        if subsets.find(edge.0) != subsets.find(edge.1) {
            cut += 1;
        }
        e += 1;
    }
    cut
}

/// The number of elements in the set that `root` represents.
pub fn count_members(subsets: &UnionFind, root: usize) -> (size: usize)
    requires
        subsets.wf(),
    ensures
        size == set_size(subsets@, root as int),
{
    let mut size: usize = 0;
    let mut v: usize = 0;
    while v < subsets.len()
        invariant
            subsets.wf(),
            v <= subsets@.len(),
            size == count_in(subsets@, root as int, v as nat),
            size <= v,
        decreases subsets@.len() - v,
    {
        if subsets.find(v) == root {
            size += 1;
        }
        v += 1;
    }
    size
}

/// The product of the sizes of all sets, for a forest of at most two sets.
pub fn partition_product(subsets: &UnionFind) -> (product: u128)
    requires
        subsets.wf(),
        num_sets(subsets@) <= 2,
    ensures
        product == sizes_product(subsets@, subsets@.len()),
{
    let mut product: u128 = 1;
    let mut v: usize = 0;
    let ghost s = subsets@;
    proof {
        lemma_count_roots_prefix(s, 0, s.len());
    }
    while v < subsets.len()
        invariant
            s == subsets@,
            subsets.wf(),
            num_sets(s) <= 2,
            v <= s.len(),
            product == sizes_product(s, v as nat),
            count_roots(s, v as nat) <= 2,
            count_roots(s, v as nat) == 0 ==> product == 1,
            count_roots(s, v as nat) == 1 ==> product <= usize::MAX,
        decreases s.len() - v,
    {
        proof {
            lemma_count_roots_prefix(s, (v + 1) as nat, s.len());
        }
        if subsets.find(v) == v {
            let size = count_members(subsets, v);
            assert(product * size <= usize::MAX * usize::MAX) by (nonlinear_arith)
                requires
                    product <= usize::MAX,
                    size <= usize::MAX,
            ;
            assert(usize::MAX * usize::MAX <= u128::MAX) by (nonlinear_arith)
                requires
                    usize::MAX <= u64::MAX,
            ;
            assert(product == 1 ==> product * size == size) by (nonlinear_arith);
            product = product * (size as u128);
        } else {
            assert(product * 1 == product) by (nonlinear_arith);
        }
        v += 1;
    }
    product
}

/// Counting representatives over more elements never gives less.
pub proof fn lemma_count_roots_prefix(s: Seq<UnionRank>, j: nat, k: nat)
    requires
        j <= k,
    ensures
        count_roots(s, j) <= count_roots(s, k),
    decreases k,
{
    if j < k {
        lemma_count_roots_prefix(s, j, (k - 1) as nat);
    }
}

/// What one trial yields: the product of the two set sizes, if the trial
/// got down to two sets and exactly `target` edges cross between them.
pub open spec fn try_cut_spec(
    n: nat,
    edges: Seq<(usize, usize)>,
    seed: usize,
    target: nat,
    max_draws: nat,
) -> Option<nat> {
    match karger_spec(n, edges, seed, max_draws) {
        Some(s) => if num_sets(s) == 2 && cut_size(edges, s, edges.len()) == target {
            Some(sizes_product(s, s.len()))
        } else {
            None
        },
        None => None,
    }
}

/// What the search yields: the result of the first trial, in the order of
/// `seeds` from index `from` on, that is accepted.
pub open spec fn find_cut_spec(
    n: nat,
    edges: Seq<(usize, usize)>,
    seeds: Seq<usize>,
    from: int,
    target: nat,
    max_draws: nat,
) -> Option<nat>
    decreases seeds.len() - from,
{
    if from < 0 || from >= seeds.len() {
        None
    } else {
        match try_cut_spec(n, edges, seeds[from], target, max_draws) {
            Some(p) => Some(p),
            None => find_cut_spec(n, edges, seeds, from + 1, target, max_draws),
        }
    }
}

/// Runs one trial with the given seed and accepts it if it leaves two sets
/// of vertices with exactly `target` edges between them; the result is then
/// the product of the sizes of the two sets.
pub fn try_cut(graph: &Graph, seed: usize, target: usize, max_draws: usize) -> (r: Option<u128>)
    requires
        graph.wf(),
    ensures
        match r {
            Some(p) => try_cut_spec(
                graph.n_vertices as nat,
                graph.edges@,
                seed,
                target as nat,
                max_draws as nat,
            ) == Some(p as nat),
            None => try_cut_spec(
                graph.n_vertices as nat,
                graph.edges@,
                seed,
                target as nat,
                max_draws as nat,
            ) is None,
        },
{
    match karger(graph, seed, max_draws) {
        Some(subsets) => {
            if graph.n_vertices >= 2 && count_cut_edges(graph, &subsets) == target {
                Some(partition_product(&subsets))
            } else {
                None
            }
        },
        None => None,
    }
}

/// Repeats trials, one for each seed in order, until one is accepted, and
/// returns its product of set sizes; `None` if no seed gives a cut of
/// `target` edges.
pub fn find_minimal_cut(graph: &Graph, seeds: &Vec<usize>, target: usize, max_draws: usize) -> (r:
    Option<u128>)
    requires
        graph.wf(),
    ensures
        match r {
            Some(p) => find_cut_spec(
                graph.n_vertices as nat,
                graph.edges@,
                seeds@,
                0,
                target as nat,
                max_draws as nat,
            ) == Some(p as nat),
            None => find_cut_spec(
                graph.n_vertices as nat,
                graph.edges@,
                seeds@,
                0,
                target as nat,
                max_draws as nat,
            ) is None,
        },
{
    let mut i: usize = 0;
    while i < seeds.len()
        invariant
            graph.wf(),
            i <= seeds@.len(),
            find_cut_spec(
                graph.n_vertices as nat,
                graph.edges@,
                seeds@,
                0,
                target as nat,
                max_draws as nat,
            ) == find_cut_spec(
                graph.n_vertices as nat,
                graph.edges@,
                seeds@,
                i as int,
                target as nat,
                max_draws as nat,
            ),
        decreases seeds@.len() - i,
    {
        match try_cut(graph, seeds[i], target, max_draws) {
            Some(p) => {
                return Some(p);
            },
            None => {},
        }
        i += 1;
    }
    None
}

} // verus!
