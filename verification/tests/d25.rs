use advent::d25::cut::{count_cut_edges, count_members, find_minimal_cut, partition_product, try_cut};
use advent::d25::forest::UnionRank;
use advent::d25::karger::{karger, Contraction, Graph};
use advent::d25::parse::{parse_input, ParseError};
use advent::d25::rng::Rng;
use advent::d25::union_find::UnionFind;
use advent::d25::{get_solution_1, SolveError, CUT_EDGES};

const TWO_GROUPS: &str = "a: b c d\nb: a c e\nc: a b f\nd: e f g\ne: d f g\nf: d e g\ng: d e f\n";

fn chain_length(sets: &UnionFind, mut id: usize) -> usize {
    let mut steps = 0;
    while sets.nodes[id].parent != id {
        id = sets.nodes[id].parent;
        steps += 1;
    }
    steps
}

#[test]
fn rng_starts_from_its_seed() {
    let rng = Rng::seed(42);
    assert_eq!(rng.state, 42);
}

#[test]
fn rng_next_is_three_shift_rounds() {
    let mut rng = Rng::seed(1);
    assert_eq!(rng.next(), 270369);
    assert_eq!(rng.state, 270369);
    assert_eq!(rng.next(), 68787111425);
    assert_eq!(Rng::seed(42).next(), 11355432);
}

#[test]
fn rng_stays_at_zero() {
    let mut rng = Rng::seed(0);
    assert_eq!(rng.next(), 0);
    assert_eq!(rng.next(), 0);
}

#[test]
fn new_sets_are_their_own_representatives() {
    let sets = UnionFind::new(4);
    assert_eq!(sets.len(), 4);
    for v in 0..4 {
        assert_eq!(sets.find(v), v);
        assert_eq!(sets.nodes[v], UnionRank { parent: v, rank: 0 });
    }
    assert_eq!(UnionFind::new(0).len(), 0);
}

#[test]
fn union_hangs_second_under_first_on_equal_rank() {
    let mut sets = UnionFind::new(3);
    sets.union(0, 1);
    assert_eq!(sets.nodes[0], UnionRank { parent: 0, rank: 1 });
    assert_eq!(sets.nodes[1], UnionRank { parent: 0, rank: 0 });
    assert_eq!(sets.nodes[2], UnionRank { parent: 2, rank: 0 });
}

#[test]
fn union_hangs_lower_rank_under_higher() {
    let mut sets = UnionFind::new(3);
    sets.union(0, 1);
    sets.union(2, 1);
    assert_eq!(sets.nodes[2], UnionRank { parent: 0, rank: 0 });
    assert_eq!(sets.nodes[0], UnionRank { parent: 0, rank: 1 });
    assert_eq!(sets.find(2), 0);
}

#[test]
fn union_with_itself_changes_nothing() {
    let mut sets = UnionFind::new(5);
    sets.union(1, 2);
    sets.union(3, 2);
    let before = sets.nodes.clone();
    for v in 0..5 {
        sets.union(v, v);
    }
    sets.union(1, 3);
    sets.union(2, 1);
    assert_eq!(sets.nodes, before);
}

#[test]
fn find_agrees_exactly_with_chains_of_unions() {
    let mut sets = UnionFind::new(8);
    sets.union(0, 1);
    sets.union(2, 3);
    sets.union(1, 3);
    sets.union(5, 6);
    let groups = [0, 0, 0, 0, 1, 2, 2, 3];
    for a in 0..8 {
        for b in 0..8 {
            assert_eq!(sets.find(a) == sets.find(b), groups[a] == groups[b]);
        }
    }
}

#[test]
fn chains_stay_logarithmic() {
    let n = 64;
    let mut sets = UnionFind::new(n);
    let mut rng = Rng::seed(7);
    for _ in 0..500 {
        let a = rng.next() % n;
        let b = rng.next() % n;
        sets.union(a, b);
        for v in 0..n {
            assert!(chain_length(&sets, v) <= 6);
        }
    }
}

#[test]
fn parse_numbers_names_by_first_occurrence() {
    let graph = parse_input("x: y z\ny: z w\n").unwrap();
    assert_eq!(graph.n_vertices, 4);
    assert_eq!(graph.n_edges, 4);
    assert_eq!(graph.edges, vec![(0, 1), (0, 2), (1, 2), (1, 3)]);
}

#[test]
fn parse_counts_a_repeated_neighbour_once() {
    let graph = parse_input("  x :  y   y z y\r\n").unwrap();
    assert_eq!(graph.n_vertices, 3);
    assert_eq!(graph.edges, vec![(0, 1), (0, 2)]);
}

#[test]
fn parse_keeps_a_vertex_without_neighbours() {
    let graph = parse_input("lonely:\n").unwrap();
    assert_eq!(graph.n_vertices, 1);
    assert_eq!(graph.n_edges, 0);
}

#[test]
fn parse_ignores_what_follows_a_second_colon() {
    let graph = parse_input("a: b c: d e").unwrap();
    assert_eq!(graph.n_vertices, 3);
    assert_eq!(graph.edges, vec![(0, 1), (0, 2)]);
}

#[test]
fn parse_reports_the_first_line_without_colon() {
    assert_eq!(parse_input("a: b\nno colon here\nc d\n").err(), Some(ParseError::MissingColon(1)));
    assert_eq!(parse_input("a: b\n\nc: d\n").err(), Some(ParseError::MissingColon(1)));
}

#[test]
fn parse_of_nothing_is_the_empty_graph() {
    let graph = parse_input("").unwrap();
    assert_eq!(graph.n_vertices, 0);
    assert_eq!(graph.n_edges, 0);
}

#[test]
fn parse_two_groups() {
    let graph = parse_input(TWO_GROUPS).unwrap();
    assert_eq!(graph.n_vertices, 7);
    assert_eq!(graph.n_edges, 21);
    assert_eq!(&graph.edges[..6], &[(0, 1), (0, 2), (0, 3), (1, 0), (1, 2), (1, 4)]);
}

#[test]
fn contraction_counter_only_falls_and_stops_at_two() {
    let graph = parse_input(TWO_GROUPS).unwrap();
    let mut trial = Contraction::new(&graph, 5);
    assert_eq!(trial.vertices_left, 7);
    let mut draws = 0;
    while trial.vertices_left > 2 {
        let before = trial.vertices_left;
        let merged = trial.step(&graph);
        assert_eq!(trial.vertices_left, if merged { before - 1 } else { before });
        assert!(trial.vertices_left >= 2 && trial.vertices_left <= 7);
        draws += 1;
    }
    assert_eq!(trial.vertices_left, 2);
    assert_eq!(draws, 7);
}

#[test]
fn karger_with_seed_five_separates_the_groups() {
    let graph = parse_input(TWO_GROUPS).unwrap();
    let sets = karger(&graph, 5, 1000).unwrap();
    let expected = [(1, 0), (1, 1), (1, 0), (4, 0), (4, 1), (4, 0), (4, 0)];
    for v in 0..7 {
        assert_eq!((sets.nodes[v].parent, sets.nodes[v].rank), expected[v]);
    }
}

#[test]
fn karger_gives_up_when_the_draws_run_out() {
    let graph = parse_input(TWO_GROUPS).unwrap();
    assert!(karger(&graph, 5, 3).is_none());
    assert!(karger(&graph, 5, 6).is_none());
    assert!(karger(&graph, 5, 7).is_some());
    assert!(karger(&graph, 0, 1000).is_none());
}

#[test]
fn karger_without_edges() {
    let three = Graph { n_edges: 0, n_vertices: 3, edges: vec![] };
    assert!(karger(&three, 5, 10).is_none());
    let two = Graph { n_edges: 0, n_vertices: 2, edges: vec![] };
    assert_eq!(karger(&two, 5, 10).unwrap().len(), 2);
    let none = Graph { n_edges: 0, n_vertices: 0, edges: vec![] };
    assert_eq!(karger(&none, 5, 0).unwrap().len(), 0);
}

#[test]
fn same_seed_same_partition() {
    let graph = parse_input(TWO_GROUPS).unwrap();
    for seed in 1..30 {
        let first = karger(&graph, seed, 1000).unwrap();
        let second = karger(&graph, seed, 1000).unwrap();
        assert_eq!(first.nodes, second.nodes);
    }
    let mut a = Contraction::new(&graph, 9);
    let mut b = Contraction::new(&graph, 9);
    for _ in 0..5 {
        assert_eq!(a.step(&graph), b.step(&graph));
        assert_eq!(a.rng.state, b.rng.state);
        assert_eq!(a.subsets.nodes, b.subsets.nodes);
    }
}

#[test]
fn accepted_cut_matches_recount_by_partition() {
    let graph = parse_input(TWO_GROUPS).unwrap();
    let sets = karger(&graph, 5, 1000).unwrap();
    let cut = count_cut_edges(&graph, &sets);
    assert_eq!(cut, 3);
    let side: Vec<bool> = (0..7).map(|v| sets.find(v) == sets.find(0)).collect();
    let recount = graph.edges.iter().filter(|(u, v)| side[*u] != side[*v]).count();
    assert_eq!(recount, cut);
    assert_eq!(side, vec![true, true, true, false, false, false, false]);
}

#[test]
fn rejected_trial_has_another_cut() {
    let graph = parse_input(TWO_GROUPS).unwrap();
    let sets = karger(&graph, 1, 1000).unwrap();
    assert_eq!(count_cut_edges(&graph, &sets), 5);
    assert_eq!(try_cut(&graph, 1, 3, 1000), None);
    assert_eq!(try_cut(&graph, 1, 5, 1000), Some(6));
}

#[test]
fn sizes_of_the_two_groups() {
    let graph = parse_input(TWO_GROUPS).unwrap();
    let sets = karger(&graph, 5, 1000).unwrap();
    assert_eq!(count_members(&sets, 1), 3);
    assert_eq!(count_members(&sets, 4), 4);
    assert_eq!(count_members(&sets, 0), 0);
    assert_eq!(partition_product(&sets), 12);
}

#[test]
fn product_of_few_sets() {
    assert_eq!(partition_product(&UnionFind::new(0)), 1);
    assert_eq!(partition_product(&UnionFind::new(1)), 1);
    let mut sets = UnionFind::new(5);
    sets.union(0, 1);
    sets.union(2, 3);
    sets.union(3, 4);
    assert_eq!(partition_product(&sets), 6);
}

#[test]
fn three_edge_cut_gives_three_times_four() {
    let graph = parse_input(TWO_GROUPS).unwrap();
    assert_eq!(try_cut(&graph, 5, 3, 1000), Some(12));
    assert_eq!(find_minimal_cut(&graph, &vec![5], CUT_EDGES, 1000), Some(12));
    assert_eq!(get_solution_1(TWO_GROUPS, &vec![5], 1000), Ok(12));
}

#[test]
fn search_takes_the_first_seed_that_is_accepted() {
    let graph = parse_input(TWO_GROUPS).unwrap();
    assert_eq!(find_minimal_cut(&graph, &vec![1, 2, 3, 4], 3, 1000), None);
    assert_eq!(find_minimal_cut(&graph, &vec![1, 2, 3, 4, 5], 3, 1000), Some(12));
    assert_eq!(find_minimal_cut(&graph, &vec![], 3, 1000), None);
    assert_eq!(find_minimal_cut(&graph, &vec![5], 3, 4), None);
}

#[test]
fn small_graphs_have_no_cut() {
    let one = parse_input("a:\n").unwrap();
    assert_eq!(try_cut(&one, 5, 0, 10), None);
    let two = parse_input("a: b\n").unwrap();
    assert_eq!(try_cut(&two, 5, 1, 0), Some(1));
    assert_eq!(try_cut(&two, 5, 3, 10), None);
}

#[test]
fn solution_errors() {
    assert_eq!(get_solution_1(TWO_GROUPS, &vec![1, 2], 1000), Err(SolveError::CutNotFound));
    assert_eq!(
        get_solution_1("a: b\nc\n", &vec![5], 1000),
        Err(SolveError::Parse(ParseError::MissingColon(1)))
    );
}
