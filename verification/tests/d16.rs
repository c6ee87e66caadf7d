use advent::d16::{bfs, bfs_all_positions, get_solution_1, get_solution_2, is_markable, parse_input, Dir, Position};

const CONTRAPTION: &str = r".|...\....
|.-.\.....
.....|-...
........|.
..........
.........\
..../.\\..
.-.-/..|..
.|....-|.\
..//.|....
";

#[test]
fn directions_turn() {
    assert_eq!(Dir::from(0), Dir::Up);
    assert_eq!(Dir::from(1), Dir::Right);
    assert_eq!(Dir::from(2), Dir::Down);
    assert_eq!(Dir::from(3), Dir::Left);
    assert_eq!(Dir::from(9), Dir::Left);
    assert_eq!(Dir::Left.index(), 3);
    assert_eq!(Dir::Up.turn_clockwise(), Dir::Right);
    assert_eq!(Dir::Left.turn_clockwise(), Dir::Up);
    assert_eq!(Dir::Up.turn_counter_clockwise(), Dir::Left);
    assert_eq!(Dir::Right.turn_counter_clockwise(), Dir::Up);
}

#[test]
fn mirrors_and_splitters() {
    assert_eq!(Dir::Right.turn(b'/'), Dir::Up);
    assert_eq!(Dir::Right.turn(b'\\'), Dir::Down);
    assert_eq!(Dir::Up.turn(b'/'), Dir::Right);
    assert_eq!(Dir::Up.turn(b'\\'), Dir::Left);
    assert_eq!(Dir::Down.turn(b'/'), Dir::Left);
    assert_eq!(Dir::Left.turn(b'\\'), Dir::Up);
    assert_eq!(Dir::Up.split(b'-'), (Dir::Left, Some(Dir::Right)));
    assert_eq!(Dir::Left.split(b'-'), (Dir::Left, None));
    assert_eq!(Dir::Right.split(b'|'), (Dir::Up, Some(Dir::Down)));
    assert_eq!(Dir::Down.split(b'|'), (Dir::Down, None));
    assert_eq!(Dir::Down.next_dir(b'.'), (Dir::Down, None));
    assert_eq!(Dir::Down.next_dir(b'/'), (Dir::Left, None));
    assert_eq!(Dir::Down.next_dir(b'-'), (Dir::Left, Some(Dir::Right)));
}

#[test]
fn positions_move() {
    assert_eq!((3, 4).move_pos(&Dir::Up), (3, 3));
    assert_eq!((3, 4).move_pos(&Dir::Right), (4, 4));
    assert_eq!((3, 4).move_pos(&Dir::Down), (3, 5));
    assert_eq!((3, 4).move_pos(&Dir::Left), (2, 4));
    assert_eq!((0, 0).move_pos(&Dir::Up), (0, usize::MAX));
    assert_eq!((0, 0).move_pos(&Dir::Left), (usize::MAX, 0));
}

#[test]
fn beam_from_the_top_left() {
    let map = parse_input(CONTRAPTION);
    assert!(is_markable(&map));
    let tiles = bfs(&map, (0, 0), Dir::Right);
    assert_eq!(tiles.len(), 46);
    assert_eq!(&tiles[..3], &[(0, 0), (1, 0), (2, 0)]);
    assert_eq!(get_solution_1(CONTRAPTION), Some(46));
}

#[test]
fn beam_from_the_best_edge() {
    let map = parse_input(CONTRAPTION);
    assert_eq!(bfs(&map, (3, 0), Dir::Down).len(), 51);
    assert_eq!(bfs_all_positions(&map).len(), 51);
    assert_eq!(get_solution_2(CONTRAPTION), Some(51));
}

#[test]
fn beams_off_the_grid_and_in_loops() {
    let map = parse_input(CONTRAPTION);
    assert_eq!(bfs(&map, (10, 0), Dir::Left), vec![]);
    assert_eq!(bfs(&map, (0, 10), Dir::Up), vec![]);
    assert_eq!(bfs(&parse_input(""), (0, 0), Dir::Right), vec![]);
    let ring = parse_input("/-\\\n|.|\n\\-/\n");
    assert_eq!(bfs(&ring, (1, 0), Dir::Right).len(), 8);
    let ragged = parse_input("..\n.\n");
    assert_eq!(bfs(&ragged, (1, 0), Dir::Down), vec![(1, 0)]);
    assert_eq!(bfs(&ragged, (0, 0), Dir::Down), vec![(0, 0), (0, 1)]);
    assert_eq!(get_solution_2(""), Some(0));
}
