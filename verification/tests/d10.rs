use advent::d10::{
    count_inside_tiles, get_solution_1, get_solution_2, move_position, parse_input, traverse, Dir,
    Field, Tile,
};

const CLOSED: &str = ".....
.S-7.
.|.|.
.L-J.
.....
";

const SQUARE: &str = ".....
.F-S.
.|.|.
.L-J.
.....
";

const WINDING: &str = "..FS.
.FJ|.
FJ.L7
|F--J
LJ...
";

const ENCLOSING: &str = "...........
.F-------S.
.|F-----7|.
.||.....||.
.||.....||.
.|L-7.F-J|.
.|..|.|..|.
.L--J.L--J.
...........
";

#[test]
fn d10_test_parse_input() {
    let (position, map) = parse_input(SQUARE).unwrap();
    println!("{position:?}\n{:?}", map.tiles);
}

#[test]
fn test_determine_start_tile() {
    let (position, map) = parse_input(CLOSED).unwrap();
    let start_tile = map.determine_start_tile(position);
    assert_eq!(start_tile, Tile::SouthEast);
}

#[test]
fn test_traverse() {
    let (position, mut map) = parse_input(WINDING).unwrap();
    let start_tile = map.determine_start_tile(position);
    map.set_start_tile(position, start_tile);

    let res = traverse(position, &map).unwrap().len;
    println!("{:?}", res / 2);
}

#[test]
fn test_count_inside_tiles() {
    let (position, mut map) = parse_input(ENCLOSING).unwrap();
    let start_tile = map.determine_start_tile(position);
    map.set_start_tile(position, start_tile);

    let pipe = traverse(position, &map).unwrap();
    println!("{:?}", count_inside_tiles(&map, pipe));
}

#[test]
fn tiles_are_read() {
    assert_eq!(Tile::from(b'|'), Tile::Vertical);
    assert_eq!(Tile::from(b'-'), Tile::Horizontal);
    assert_eq!(Tile::from(b'L'), Tile::NorthEast);
    assert_eq!(Tile::from(b'J'), Tile::NorthWest);
    assert_eq!(Tile::from(b'7'), Tile::SouthWest);
    assert_eq!(Tile::from(b'F'), Tile::SouthEast);
    assert_eq!(Tile::from(b'.'), Tile::Ground);
    assert_eq!(Tile::from(b'S'), Tile::Start);
    assert_eq!(Tile::from(b'x'), Tile::Start);
}

#[test]
fn start_gets_its_pipe() {
    let (position, map) = parse_input(SQUARE).unwrap();
    assert_eq!(position, (3, 1));
    assert_eq!(map.get((3, 1)), Tile::SouthWest);
    assert_eq!(map.determine_start_tile(position), Tile::SouthWest);
    assert_eq!(map.get((2, 1)), Tile::Horizontal);
    assert_eq!(map.get((0, 0)), Tile::Ground);
    assert_eq!(map.get((5, 0)), Tile::Ground);
    assert_eq!(map.get((0, 5)), Tile::Ground);
    let (position, map) = parse_input(WINDING).unwrap();
    assert_eq!(position, (3, 0));
    assert_eq!(map.get(position), Tile::SouthWest);
    assert!(parse_input("..\n..\n").is_none());
}

#[test]
fn pipes_lead_on_where_both_sides_open() {
    let (_, map) = parse_input(SQUARE).unwrap();
    assert!(map.can_move((1, 1), Dir::East));
    assert!(map.can_move((1, 1), Dir::South));
    assert!(!map.can_move((1, 1), Dir::North));
    assert!(!map.can_move((1, 1), Dir::West));
    assert!(map.can_move((3, 3), Dir::North));
    assert!(map.can_move((3, 1), Dir::West));
    assert!(map.can_move((3, 1), Dir::South));
    let plain = Field { tiles: vec![vec![Tile::Start, Tile::Horizontal], vec![Tile::Vertical, Tile::Ground]] };
    assert!(!plain.can_move((0, 0), Dir::East));
    assert!(plain.neighbour_opens((0, 0), Dir::East));
    assert!(plain.neighbour_opens((0, 0), Dir::South));
    assert!(!plain.neighbour_opens((0, 0), Dir::North));
    assert!(!plain.neighbour_opens((0, 0), Dir::West));
    assert_eq!(plain.determine_start_tile((0, 0)), Tile::SouthEast);
    let corners = Field { tiles: vec![vec![Tile::SouthEast, Tile::Horizontal], vec![Tile::Vertical, Tile::Ground]] };
    assert_eq!(corners.determine_start_tile((0, 0)), Tile::SouthEast);
    assert!(!map.can_move((0, 0), Dir::North));
    assert!(map.is_valid_direction((2, 1), Dir::East));
    assert!(map.is_valid_direction((2, 1), Dir::West));
    assert!(!map.is_valid_direction((2, 1), Dir::North));
    let lonely = Field { tiles: vec![vec![Tile::Vertical]] };
    assert!(!lonely.can_move((0, 0), Dir::North));
    assert!(!lonely.can_move((0, 0), Dir::South));
    assert_eq!(lonely.determine_start_tile((0, 0)), Tile::SouthWest);
}

#[test]
fn positions_step() {
    assert_eq!(move_position(Dir::North, (3, 4)), (3, 3));
    assert_eq!(move_position(Dir::East, (3, 4)), (4, 4));
    assert_eq!(move_position(Dir::South, (3, 4)), (3, 5));
    assert_eq!(move_position(Dir::West, (3, 4)), (2, 4));
}

#[test]
fn loops_are_walked() {
    let (position, map) = parse_input(SQUARE).unwrap();
    let pipe = traverse(position, &map).unwrap();
    assert_eq!(pipe.len, 8);
    assert_eq!(pipe.marks[1], vec![false, true, true, true, false]);
    assert_eq!(pipe.marks[3], vec![false, true, true, true, false]);
    assert_eq!(pipe.marks[2], vec![false, true, false, true, false]);
    assert_eq!(pipe.marks[0], vec![false; 5]);
    assert_eq!(get_solution_1(SQUARE), Some(4));
    assert_eq!(get_solution_1(WINDING), Some(8));
    assert_eq!(get_solution_1(ENCLOSING), Some(23));
    assert_eq!(get_solution_1(CLOSED), Some(4));
    assert_eq!(get_solution_2(CLOSED), Some(1));
}

#[test]
fn walks_that_do_not_close() {
    let (position, map) = parse_input("F-S\n|..\n").unwrap();
    assert!(traverse(position, &map).is_none());
    assert!(traverse((9, 9), &map).is_none());
    let lonely = Field { tiles: vec![vec![Tile::Ground]] };
    assert_eq!(traverse((0, 0), &lonely).unwrap().len, 1);
}

#[test]
fn enclosed_tiles_are_counted() {
    assert_eq!(get_solution_2(SQUARE), Some(1));
    assert_eq!(get_solution_2(WINDING), Some(1));
    assert_eq!(get_solution_2(ENCLOSING), Some(4));
    assert_eq!(get_solution_2(""), None);
}
