use advent::d03::{
    add_gear_num, get_adjacent, get_num_width, get_solution_1, get_solution_2, has_adjacent,
    has_gear, parse_input, parse_num,
};

const SCHEMATIC: &str = "467..114..
...*......
..35..633.
......#...
617*......
.....+.58.
..592.....
......755.
...$.*....
.664.598..
";

#[test]
fn schematic_gets_a_frame() {
    let map = parse_input(SCHEMATIC).unwrap();
    assert_eq!(map.len(), 12);
    assert_eq!(map[0], vec![b'.'; 12]);
    assert_eq!(map[11], vec![b'.'; 12]);
    assert_eq!(map[1], b".467..114...".to_vec());
    assert!(parse_input("").is_none());
    assert!(parse_input("12\n3\n").is_none());
}

#[test]
fn numbers_and_what_stands_around_them() {
    let map = parse_input(SCHEMATIC).unwrap();
    assert_eq!(get_num_width(1, 1, &map), 3);
    assert_eq!(get_num_width(1, 2, &map), 2);
    assert_eq!(get_num_width(1, 4, &map), 0);
    assert_eq!(get_num_width(1, 6, &map), 3);
    assert_eq!(
        get_adjacent(1, 1, 3),
        vec![(0, 0), (0, 1), (0, 2), (0, 3), (0, 4), (1, 0), (1, 4), (2, 0), (2, 1), (2, 2), (2, 3), (2, 4)]
    );
    assert_eq!(get_adjacent(3, 2, 0), vec![(2, 1), (2, 2), (3, 1), (3, 2), (4, 1), (4, 2)]);
    assert!(has_adjacent(1, 1, 3, &map));
    assert!(!has_adjacent(1, 6, 3, &map));
    assert_eq!(has_gear(&get_adjacent(1, 1, 3), &map), Some((2, 4)));
    assert_eq!(has_gear(&get_adjacent(3, 7, 3), &map), None);
    assert_eq!(parse_num(&map[1], 1, 3), Some(467));
    assert_eq!(parse_num(&map[1], 2, 2), Some(67));
    assert_eq!(parse_num(&map[1], 3, 4), Some(71));
    assert_eq!(parse_num(&map[1], 4, 2), None);
    assert_eq!(parse_num(&map[1], 1, 0), None);
    assert_eq!(parse_num(&b"99999999999".to_vec(), 0, 11), None);
}

#[test]
fn gears_collect_their_numbers() {
    let mut gears = Vec::new();
    add_gear_num(2, 4, 467, &mut gears);
    add_gear_num(5, 4, 617, &mut gears);
    add_gear_num(2, 4, 35, &mut gears);
    assert_eq!(gears, vec![((2, 4), vec![467, 35]), ((5, 4), vec![617])]);
}

#[test]
fn sums_over_the_schematic() {
    assert_eq!(get_solution_1(SCHEMATIC), Some(4361));
    assert_eq!(get_solution_2(SCHEMATIC), Some(467835));
    assert_eq!(get_solution_1("12*34\n"), Some(46));
    assert_eq!(get_solution_2("12*34\n"), Some(408));
    assert_eq!(get_solution_1("12.34\n"), Some(0));
}
