use advent::d23::{
    bfs, compact_edges, follow_path, get_solution_1, get_solution_2, parse_input, Dir, Point, Tile,
};

const FOREST: &str = "#.#####################
#.......#########...###
#######.#########.#.###
###.....#.>.>.###.#.###
###v#####.#v#.###.#.###
###.>...#.#.#.....#...#
###v###.#.#.#########.#
###...#.#.#.......#...#
#####.#.#.#######.#.###
#.....#.#.#.......#...#
#.#####.#.#.#########v#
#.#...#...#...###...>.#
#.#.#v#######v###.###v#
#...#.>.#...>.>.#.###.#
#####v#.#.###v#.#.###.#
#.....#...#...#.#.#...#
#.#########.###.#.#.###
#...###...#...#...#.###
###.###.#.###v#####v###
#...#...#.#.>.>.#.>.###
#.###.###.#.###.#.#v###
#.....###...###...#...#
#####################.#
";

#[test]
fn d23_test_parse_input() {
    let map = parse_input(FOREST).unwrap();
    println!("{}", map.to_string());
    let map_str = format!("{}", map.to_string());

    assert_eq!(FOREST, map_str.as_str());
}

#[test]
fn test_remove_slopes() {
    let map = parse_input(FOREST).unwrap().remove_slopes();
    println!("{}", map.to_string());
}

#[test]
fn longest_hikes() {
    assert_eq!(get_solution_1(FOREST), Some(94));
    assert_eq!(get_solution_2(FOREST), Some(154));
}

#[test]
fn slopes_become_paths() {
    let map = parse_input(FOREST).unwrap();
    assert_eq!(map.width, 23);
    assert_eq!(map.height, 23);
    assert_eq!(map.get_tile(10, 3), Some(Tile::Slope(Dir::R)));
    assert_eq!(map.get_tile(3, 4), Some(Tile::Slope(Dir::D)));
    assert_eq!(map.get_tile(1, 0), Some(Tile::Path));
    assert_eq!(map.get_tile(0, 0), Some(Tile::Forest));
    assert_eq!(map.get_tile(23, 0), None);
    assert_eq!(map.get_tile(0, 23), None);
    assert_eq!(map.get_end(), Point { x: 21, y: 22 });
    let flat = map.remove_slopes();
    assert_eq!(flat.get_tile(10, 3), Some(Tile::Path));
    assert_eq!(flat.get_tile(0, 0), Some(Tile::Forest));
    assert_eq!(flat.to_string(), FOREST.replace(['>', 'v'], "."));
}

#[test]
fn tiles_and_directions_are_read() {
    assert_eq!(Dir::from_byte(b'^'), Some(Dir::U));
    assert_eq!(Dir::from_byte(b'v'), Some(Dir::D));
    assert_eq!(Dir::from_byte(b'<'), Some(Dir::L));
    assert_eq!(Dir::from_byte(b'>'), Some(Dir::R));
    assert_eq!(Dir::from_byte(b'x'), None);
    assert_eq!(Dir::L.to_char(), '<');
    assert_eq!(Tile::from_byte(b'.'), Some(Tile::Path));
    assert_eq!(Tile::from_byte(b'#'), Some(Tile::Forest));
    assert_eq!(Tile::from_byte(b'^'), Some(Tile::Slope(Dir::U)));
    assert_eq!(Tile::from_byte(b'S'), None);
    assert_eq!(Tile::Slope(Dir::U).to_char(), '^');
    assert!(Dir::U.is_opposite(Dir::D));
    assert!(Dir::R.is_opposite(Dir::L));
    assert!(!Dir::U.is_opposite(Dir::U));
    assert!(!Dir::U.is_opposite(Dir::L));
}

#[test]
fn maps_that_cannot_be_read() {
    assert!(parse_input("").is_none());
    assert!(parse_input("#.#\n#.\n").is_none());
    assert!(parse_input("#.#\n#S#\n").is_none());
    assert!(parse_input("  #.#  \n#.#\n").is_some());
    assert_eq!(get_solution_1("#\n"), None);
}

#[test]
fn points_step_and_stop() {
    let map = parse_input(FOREST).unwrap();
    let p = Point { x: 3, y: 4 };
    assert_eq!(p.update_position(Dir::U), Point { x: 3, y: 3 });
    assert_eq!(p.update_position(Dir::D), Point { x: 3, y: 5 });
    assert_eq!(p.update_position(Dir::L), Point { x: 2, y: 4 });
    assert_eq!(p.update_position(Dir::R), Point { x: 4, y: 4 });
    assert_eq!(Point { x: 0, y: 0 }.update_position(Dir::U), Point { x: 0, y: usize::MAX });
    assert_eq!(Point { x: 1, y: 0 }.can_move(Dir::D, &map), Some(Point { x: 1, y: 1 }));
    assert_eq!(Point { x: 1, y: 0 }.can_move(Dir::U, &map), None);
    assert_eq!(Point { x: 1, y: 0 }.can_move(Dir::L, &map), None);
    assert_eq!(Point { x: 3, y: 3 }.can_move(Dir::D, &map), Some(Point { x: 3, y: 4 }));
    assert_eq!(Point { x: 3, y: 5 }.can_move(Dir::U, &map), None);
}

#[test]
fn trails_are_followed_to_junctions() {
    let map = parse_input(FOREST).unwrap();
    let (junction, ways, cost) = follow_path(&map, Point { x: 1, y: 1 }, Dir::D, 1, 1000).unwrap();
    assert_eq!(junction, Point { x: 3, y: 5 });
    assert_eq!(cost, 15);
    assert_eq!(ways, vec![(Point { x: 3, y: 6 }, Dir::D), (Point { x: 4, y: 5 }, Dir::R)]);
    assert!(follow_path(&map, Point { x: 1, y: 1 }, Dir::D, 1, 5).is_none());
    let graph = compact_edges(&map, Point { x: 1, y: 0 }, true);
    assert_eq!(graph.nodes[0], Point { x: 1, y: 0 });
    assert_eq!(graph.nodes[1], Point { x: 3, y: 5 });
    assert_eq!(graph.edges[0], vec![(1, 15)]);
    assert_eq!(bfs(Point { x: 1, y: 0 }, Point { x: 21, y: 22 }, graph), 94);
    let both = compact_edges(&map.remove_slopes(), Point { x: 1, y: 0 }, false);
    assert_eq!(both.nodes.len(), 9);
    assert_eq!(bfs(Point { x: 1, y: 0 }, Point { x: 1, y: 0 }, both), 0);
}
