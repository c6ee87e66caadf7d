//! Randomized edge contraction: one trial merges the endpoints of randomly
//! drawn edges until two sets of vertices are left.

use vstd::prelude::*;
use crate::d25::forest::{
    UnionRank,
    well_formed,
    singletons,
    union_spec,
    same_set,
    num_sets,
    lemma_root_is_root,
    lemma_union_spec,
    lemma_singletons_well_formed,
};
use crate::d25::rng::{Rng, xorshift};
use crate::d25::union_find::UnionFind;

verus! {

/// An undirected multigraph on the vertices `0..n_vertices`.
pub struct Graph {
    pub n_edges: usize,
    pub n_vertices: usize,
    pub edges: Vec<(usize, usize)>,
}

impl Graph {
    /// The edge count is that of the list, and every edge joins two of the
    /// graph's vertices.
    pub open spec fn wf(&self) -> bool {
        &&& self.n_edges == self.edges@.len()
        &&& edges_in_range(self.edges@, self.n_vertices as nat)
    }
}

/// Every edge joins two of the vertices `0..n`.
pub open spec fn edges_in_range(edges: Seq<(usize, usize)>, n: nat) -> bool {
    forall|e: int| 0 <= e < edges.len() ==> (#[trigger] edges[e]).0 < n && edges[e].1 < n
}

/// The state of a trial: the sets of merged vertices, the generator's
/// state, and how many sets are left.
pub struct Trial {
    pub sets: Seq<UnionRank>,
    pub rng: usize,
    pub left: nat,
}

/// The index of the edge that a generator in state `rng` draws next.
pub open spec fn next_pick(edges: Seq<(usize, usize)>, rng: usize) -> int {
    xorshift(rng) as int % edges.len() as int
}

/// The trial in which no edge was drawn yet.
pub open spec fn start_spec(n: nat, seed: usize) -> Trial {
    Trial { sets: singletons(n), rng: seed, left: n }
}

/// One draw: the generator advances, and if the drawn edge joins two
/// different sets they are merged and one set fewer is left.
pub open spec fn step_spec(edges: Seq<(usize, usize)>, t: Trial) -> Trial {
    let e = edges[next_pick(edges, t.rng)];
    Trial {
        sets: union_spec(t.sets, e.0 as int, e.1 as int),
        rng: xorshift(t.rng),
        left: if same_set(t.sets, e.0 as int, e.1 as int) {
            t.left
        } else {
            (t.left - 1) as nat
        },
    }
}

/// Draws edges until two sets are left, but `draws` times at most.
pub open spec fn run_spec(edges: Seq<(usize, usize)>, t: Trial, draws: nat) -> Trial
    decreases draws,
{
    if draws == 0 || t.left <= 2 {
        t
    } else {
        run_spec(edges, step_spec(edges, t), (draws - 1) as nat)
    }
}

/// The sets that a trial with the given seed ends in, if it gets down to
/// two sets (or started with no more) within `max_draws` draws.
pub open spec fn karger_spec(
    n: nat,
    edges: Seq<(usize, usize)>,
    seed: usize,
    max_draws: nat,
) -> Option<Seq<UnionRank>> {
    let end = run_spec(edges, start_spec(n, seed), max_draws);
    if n > 2 && edges.len() == 0 {
        None
    } else if end.left <= 2 {
        Some(end.sets)
    } else {
        None
    }
}

/// The counter of a trial is the number of sets of a well-formed forest
/// over the graph's vertices.
pub open spec fn trial_ok(n: nat, t: Trial) -> bool {
    &&& well_formed(t.sets)
    &&& t.sets.len() == n
    &&& t.left == num_sets(t.sets)
}

/// One draw leaves the counter as it was or lowers it by exactly one, the
/// latter if and only if two sets were merged; it never takes a counter
/// above two below two, and the counter stays the number of sets.
pub proof fn lemma_step_counts(n: nat, edges: Seq<(usize, usize)>, t: Trial)
    requires
        trial_ok(n, t),
        edges_in_range(edges, n),
        edges.len() > 0,
    ensures
        trial_ok(n, step_spec(edges, t)),
        step_spec(edges, t).left == t.left || step_spec(edges, t).left + 1 == t.left,
        step_spec(edges, t).left + 1 == t.left <==> step_spec(edges, t).sets != t.sets,
        t.left > 2 ==> step_spec(edges, t).left >= 2,
{
    let e = edges[next_pick(edges, t.rng)];
    lemma_union_spec(t.sets, e.0 as int, e.1 as int);
    if !same_set(t.sets, e.0 as int, e.1 as int) {
        let after = union_spec(t.sets, e.0 as int, e.1 as int);
        assert(num_sets(after) != num_sets(t.sets));
    }
}

/// Over a whole trial the counter never rises, and never falls below two
/// if it started at two or more.
pub proof fn lemma_run_counts(n: nat, edges: Seq<(usize, usize)>, t: Trial, draws: nat)
    requires
        trial_ok(n, t),
        edges_in_range(edges, n),
        edges.len() > 0 || t.left <= 2,
    ensures
        trial_ok(n, run_spec(edges, t, draws)),
        run_spec(edges, t, draws).left <= t.left,
        t.left >= 2 ==> run_spec(edges, t, draws).left >= 2,
        t.left - run_spec(edges, t, draws).left <= draws,
    decreases draws,
{
    if draws > 0 && t.left > 2 {
        lemma_step_counts(n, edges, t);
        lemma_run_counts(n, edges, step_spec(edges, t), (draws - 1) as nat);
    }
}

/// A trial in progress.
pub struct Contraction {
    pub subsets: UnionFind,
    pub rng: Rng,
    pub vertices_left: usize,
}

impl View for Contraction {
    type V = Trial;

    open spec fn view(&self) -> Trial {
        Trial { sets: self.subsets@, rng: self.rng.state, left: self.vertices_left as nat }
    }
}

impl Contraction {
    /// The trial is one over the vertices of `graph`, and its counter is
    /// the number of sets left.
    pub open spec fn wf(&self, graph: &Graph) -> bool {
        trial_ok(graph.n_vertices as nat, self@)
    }

    /// Every vertex of `graph` in a set of its own, and a generator that
    /// starts from `seed`.
    pub fn new(graph: &Graph, seed: usize) -> (c: Contraction)
        ensures
            c@ == start_spec(graph.n_vertices as nat, seed),
            c.wf(graph),
    {
        Contraction {
            subsets: UnionFind::new(graph.n_vertices),
            rng: Rng::seed(seed),
            vertices_left: graph.n_vertices,
        }
    }

    /// Draws one edge and contracts it, unless its endpoints were merged
    /// before. Returns whether two sets were merged.
    pub fn step(&mut self, graph: &Graph) -> (merged: bool)
        requires
            graph.wf(),
            graph.n_edges > 0,
            old(self).wf(graph),
        ensures
            final(self)@ == step_spec(graph.edges@, old(self)@),
            final(self).wf(graph),
            merged <==> final(self).vertices_left + 1 == old(self).vertices_left,
            !merged <==> final(self).vertices_left == old(self).vertices_left,
            merged <==> final(self).subsets@ != old(self).subsets@,
            old(self).vertices_left > 2 ==> final(self).vertices_left >= 2,
    {
        proof {
            lemma_step_counts(graph.n_vertices as nat, graph.edges@, self@);
        }
        let edge_index = self.rng.next() % graph.n_edges;
        let edge = graph.edges[edge_index];
        let root_u = self.subsets.find(edge.0);
        let root_v = self.subsets.find(edge.1);
        proof {
            lemma_root_is_root(self.subsets@, edge.0 as int);
            lemma_root_is_root(self.subsets@, edge.1 as int);
            lemma_union_spec(self.subsets@, edge.0 as int, edge.1 as int);
        }
        if root_u != root_v {
            self.subsets.union(root_u, root_v);
            self.vertices_left -= 1;
            true
        } else {
            false
        }
    }
}

/// One trial of randomized contraction on `graph`, with a generator seeded
/// by `seed`: edges are drawn until two sets of vertices are left. Returns
/// the sets, or `None` when `max_draws` draws did not get down to two sets
/// (as when the graph has more than two vertices and no edge to draw).
pub fn karger(graph: &Graph, seed: usize, max_draws: usize) -> (r: Option<UnionFind>)
    requires
        graph.wf(),
    ensures
        match r {
            Some(uf) => karger_spec(graph.n_vertices as nat, graph.edges@, seed, max_draws as nat)
                == Some(uf@),
            None => karger_spec(graph.n_vertices as nat, graph.edges@, seed, max_draws as nat)
                is None,
        },
        match r {
            Some(uf) => uf.wf() && uf@.len() == graph.n_vertices && num_sets(uf@) == if graph.n_vertices
                >= 2 {
                2nat
            } else {
                graph.n_vertices as nat
            },
            None => graph.n_vertices > 2,
        },
{
    let mut trial = Contraction::new(graph, seed);
    if graph.n_vertices > 2 && graph.n_edges == 0 {
        return None;
    }
    let mut draws_left = max_draws;
    let ghost start = trial@;
    proof {
        lemma_singletons_well_formed(graph.n_vertices as nat);
    }
    while trial.vertices_left > 2 && draws_left > 0
        invariant
            graph.wf(),
            graph.n_edges > 0 || graph.n_vertices <= 2,
            trial.wf(graph),
            trial.vertices_left <= graph.n_vertices,
            graph.n_vertices >= 2 ==> trial.vertices_left >= 2,
            graph.n_vertices < 2 ==> trial.vertices_left == graph.n_vertices,
            run_spec(graph.edges@, start, max_draws as nat) == run_spec(
                graph.edges@,
                trial@,
                draws_left as nat,
            ),
        decreases draws_left,
    {
        trial.step(graph);
        draws_left -= 1;
    }
    if trial.vertices_left <= 2 {
        Some(trial.subsets)
    } else {
        None
    }
}

} // verus!
