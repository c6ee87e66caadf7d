use advent::d21::{
    calculate_reachable_number_of_tiles, calculate_visited_tiles, get_shortest_paths_per_tile,
    get_solution_1, parse_input, Garden, Tile,
};

const PLOTS: &str = "...........
.....###.#.
.###.##..#.
..#.#...#..
....#.#....
.##..S####.
.##..#...#.
.......##..
.##.#.####.
.##..##.##.
...........
";

fn reachable(steps: usize) -> usize {
    let (start, map) = parse_input(PLOTS).unwrap();
    calculate_reachable_number_of_tiles(start, map, steps)
}

#[test]
fn garden_is_read() {
    let (start, map) = parse_input(PLOTS).unwrap();
    assert_eq!(start, (5, 5));
    assert_eq!(map.width, 11);
    assert_eq!(map.height, 11);
    assert_eq!(map.tiles.len(), 121);
    assert_eq!(map.get_tile((5, 5)), Some(Tile::Garden));
    assert_eq!(map.get_tile((5, 1)), Some(Tile::Rock));
    assert_eq!(map.get_tile((11, 0)), None);
    assert_eq!(map.get_tile((0, 11)), None);
    assert_eq!(map.cell((3, 2)), 25);
    assert_eq!(map.to_string(), PLOTS.replace('S', "."));
    assert_eq!(Tile::Garden.to_char(), '.');
    assert_eq!(Tile::Rock.to_char(), '#');
}

#[test]
fn gardens_that_cannot_be_read() {
    assert!(parse_input("..S").is_none());
    assert!(parse_input("S..\n...\n").is_none());
    assert!(parse_input("...\n...\n").is_none());
    assert!(parse_input("...\n.S\n").is_none());
}

#[test]
fn plots_next_to_a_plot() {
    let (_, map) = parse_input(PLOTS).unwrap();
    assert_eq!(map.get_next_positions((5, 5)), vec![(4, 5), (5, 4)]);
    assert_eq!(map.get_next_positions((0, 0)), vec![(1, 0), (0, 1)]);
    assert_eq!(map.get_next_positions((10, 10)), vec![(9, 10), (10, 9)]);
    assert_eq!(map.get_next_positions((1, 1)), vec![(2, 1), (0, 1), (1, 0)]);
}

#[test]
fn plots_reached_after_some_steps() {
    assert_eq!(reachable(0), 1);
    assert_eq!(reachable(1), 2);
    assert_eq!(reachable(2), 4);
    assert_eq!(reachable(3), 6);
    assert_eq!(reachable(6), 16);
    assert_eq!(get_solution_1(PLOTS), Some(42));
}

#[test]
fn least_steps_to_every_plot() {
    let (start, map) = parse_input(PLOTS).unwrap();
    let steps = get_shortest_paths_per_tile(start, map);
    assert_eq!(steps.len(), 121);
    assert_eq!(steps[5 + 5 * 11], Some(0));
    assert_eq!(steps[4 + 5 * 11], Some(1));
    assert_eq!(steps[5 + 4 * 11], Some(1));
    assert_eq!(steps[5 + 1 * 11], None);
    assert_eq!(steps[0], Some(10));
    assert_eq!(steps[120], Some(14));
    assert_eq!(steps[7 + 6 * 11], Some(7));
}

#[test]
fn count_for_the_repeating_garden() {
    let visited = vec![Some(0), Some(1), Some(2), Some(66), Some(67), None];
    // n = (26501365 - 1) / 3 = 8833788; odd 2, even 3, odd far 1, even far 1
    let n: usize = 8833788;
    assert_eq!(
        calculate_visited_tiles(visited.clone(), 3),
        Some((n + 1) * (n + 1) * 2 + n * n * 3 - (n + 1) + n)
    );
    assert_eq!(calculate_visited_tiles(visited.clone(), 0), None);
    assert_eq!(calculate_visited_tiles(visited, 52 * 1000 * 1000 + 2), Some(1));
    assert_eq!(calculate_visited_tiles(vec![Some(1)], 53002732), None);
    assert_eq!(calculate_visited_tiles(vec![], 131), Some(0));
    let small = Garden { tiles: vec![Tile::Garden], width: 1, height: 1 };
    assert_eq!(get_shortest_paths_per_tile((0, 0), small), vec![Some(0)]);
}
