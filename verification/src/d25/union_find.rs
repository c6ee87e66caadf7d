//! The executable disjoint-set forest.

use vstd::prelude::*;
use crate::d25::forest::{
    UnionRank, is_root, climbs, root_of, well_formed, singletons, link, union_spec, same_set,
    num_sets, lemma_root_is_root, lemma_rank_below_len, lemma_singletons_well_formed,
    lemma_union_spec,
};

verus! {

/// A partition of the indices `0..n` into disjoint sets, kept as a forest
/// with union by rank.
pub struct UnionFind {
    pub nodes: Vec<UnionRank>,
}

impl View for UnionFind {
    type V = Seq<UnionRank>;

    open spec fn view(&self) -> Seq<UnionRank> {
        self.nodes@
    }
}

impl UnionFind {
    /// The forest invariant holds of the cells.
    pub open spec fn wf(&self) -> bool {
        well_formed(self@)
    }

    /// `n` sets of one element each.
    pub fn new(n: usize) -> (uf: UnionFind)
        ensures
            uf@ == singletons(n as nat),
            uf.wf(),
            num_sets(uf@) == n,
    {
        let mut nodes: Vec<UnionRank> = Vec::new();
        let mut v: usize = 0;
        while v < n
            invariant
                v <= n,
                nodes@ == singletons(v as nat),
            decreases n - v,
        {
            nodes.push(UnionRank { parent: v, rank: 0 });
            v += 1;
            assert(nodes@ =~= singletons(v as nat));
        }
        proof {
            lemma_singletons_well_formed(n as nat);
        }
        UnionFind { nodes }
    }

    /// The number of elements.
    pub fn len(&self) -> (n: usize)
        ensures
            n == self@.len(),
    {
        self.nodes.len()
    }

    /// The representative of the set that holds `id`.
    pub fn find(&self, id: usize) -> (r: usize)
        requires
            self.wf(),
            id < self@.len(),
        ensures
            r == root_of(self@, id as int),
            is_root(self@, r as int),
        decreases usize::MAX - self@[id as int].rank,
    {
        proof {
            lemma_root_is_root(self@, id as int);
        }
        let item = self.nodes[id];
        if item.parent != id {
            assert(climbs(self@, id as int));
            self.find(item.parent)
        } else {
            id
        }
    }

    /// Merges the sets that hold `a` and `b`. Nothing changes when they are
    /// one set already, as when `a == b`.
    pub fn union(&mut self, a: usize, b: usize)
        requires
            old(self).wf(),
            a < old(self)@.len(),
            b < old(self)@.len(),
        ensures
            final(self)@ == union_spec(old(self)@, a as int, b as int),
            final(self).wf(),
            final(self)@.len() == old(self)@.len(),
            same_set(old(self)@, a as int, b as int) ==> final(self)@ == old(self)@,
            num_sets(final(self)@) == if same_set(old(self)@, a as int, b as int) {
                num_sets(old(self)@)
            } else {
                (num_sets(old(self)@) - 1) as nat
            },
            forall|x: int, y: int|
                0 <= x < old(self)@.len() && 0 <= y < old(self)@.len() ==> (#[trigger] same_set(
                    final(self)@,
                    x,
                    y,
                ) <==> same_set(old(self)@, x, y) || (same_set(old(self)@, x, a as int)
                    && same_set(old(self)@, y, b as int)) || (same_set(old(self)@, x, b as int)
                    && same_set(old(self)@, y, a as int))),
    {
        let mut root_a = self.find(a);
        let mut root_b = self.find(b);
        proof {
            lemma_union_spec(self@, a as int, b as int);
        }
        if root_a == root_b {
            return ;
        }
        if self.nodes[root_a].rank < self.nodes[root_b].rank {
            let tmp = root_a;
            root_a = root_b;
            root_b = tmp;
        }
        let ghost before = self@;
        proof {
            lemma_rank_below_len(before, root_a as int);
        }
        let low = self.nodes[root_b];
        let high = self.nodes[root_a];
        self.nodes.set(root_b, UnionRank { parent: root_a, rank: low.rank });
        if high.rank == low.rank {
            self.nodes.set(root_a, UnionRank { parent: high.parent, rank: high.rank + 1 });
        }
        assert(self@ =~= link(before, root_a as int, root_b as int));
    }
}

} // verus!
