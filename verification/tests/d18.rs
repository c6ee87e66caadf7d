use advent::d18::{get_solution_1, get_solution_2, parse_hex, parse_input, picks_theorem, DigEntry, Dir};

const PLAN: &str = "R 6 (#70c710)
D 5 (#0dc571)
L 2 (#5713f0)
D 2 (#d2c081)
R 2 (#59c680)
D 2 (#411b91)
L 5 (#8ceee2)
U 2 (#caa173)
L 1 (#1b58a2)
U 2 (#caa171)
R 2 (#7807d2)
U 3 (#a77fa3)
L 2 (#015232)
U 2 (#7a21e3)
";

#[test]
fn directions_are_read() {
    assert_eq!(Dir::try_from(b"U"), Ok(Dir::Up));
    assert_eq!(Dir::try_from(b"3"), Ok(Dir::Up));
    assert_eq!(Dir::try_from(b"R"), Ok(Dir::Right));
    assert_eq!(Dir::try_from(b"0"), Ok(Dir::Right));
    assert_eq!(Dir::try_from(b"D"), Ok(Dir::Down));
    assert_eq!(Dir::try_from(b"1"), Ok(Dir::Down));
    assert_eq!(Dir::try_from(b"L"), Ok(Dir::Left));
    assert_eq!(Dir::try_from(b"2"), Ok(Dir::Left));
    assert_eq!(Dir::try_from(b"X"), Err("got invalid direction"));
    assert_eq!(Dir::try_from(b"UU"), Err("got invalid direction"));
    assert_eq!(Dir::try_from(b""), Err("got invalid direction"));
}

#[test]
fn colours_are_read() {
    assert_eq!(parse_hex(b"#70c710"), Some((461937, Dir::Right)));
    assert_eq!(parse_hex(b"#0dc571"), Some((56407, Dir::Down)));
    assert_eq!(parse_hex(b"#FFFFF3"), Some((1048575, Dir::Up)));
    assert_eq!(parse_hex(b"70c7100"), None);
    assert_eq!(parse_hex(b"#70c71"), None);
    assert_eq!(parse_hex(b"#70g710"), None);
    assert_eq!(parse_hex(b"#70c714"), None);
}

#[test]
fn entries_are_read() {
    let entry = DigEntry::try_from(b"R 6 (#70c710)").ok().unwrap();
    assert_eq!(entry.dir, Dir::Right);
    assert_eq!(entry.steps, 6);
    assert_eq!(entry.color, b"#70c710".to_vec());
    assert_eq!(DigEntry::try_from(b"").err(), Some("empty line"));
    assert_eq!(DigEntry::try_from(b"X 6 (#70c710)").err(), Some("got invalid direction"));
    assert_eq!(DigEntry::try_from(b"R").err(), Some("steps missing"));
    assert_eq!(DigEntry::try_from(b"R six (#70c710)").err(), Some("cannot parse steps"));
    assert_eq!(DigEntry::try_from(b"R 6").err(), Some("color missing"));
    assert_eq!(parse_input(PLAN).ok().unwrap().len(), 14);
    assert_eq!(parse_input("R 6 (#70c710)\n\n").err(), Some("empty line"));
}

#[test]
fn area_of_a_square() {
    let square = vec![(2, Dir::Right), (2, Dir::Down), (2, Dir::Left), (2, Dir::Up)];
    assert_eq!(picks_theorem(&square), Some(9));
    assert_eq!(picks_theorem(&vec![]), Some(1));
    assert_eq!(picks_theorem(&vec![(isize::MAX, Dir::Right), (1, Dir::Right)]), None);
}

#[test]
fn size_of_the_lagoon() {
    assert_eq!(get_solution_1(PLAN), Some(62));
    assert_eq!(get_solution_2(PLAN), Some(952408144115));
    assert_eq!(get_solution_1("R 6\n"), None);
    assert_eq!(get_solution_2("R 6 (#70c71x)\n"), None);
}
