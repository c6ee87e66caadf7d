use advent::d13::{
    does_reflect_horizontally, does_reflect_vertically, find_reflection, get_solution_1,
    get_solution_2, parse_input, summarize, Reflection,
};

const VALLEY: &str = "#.##..##.
..#.##.#.
##......#
##......#
..#.##.#.
..##..##.
#.#.##.#.

#...##..#
#....#..#
..##..###
#####.##.
#####.##.
..##..###
#....#..#
";

#[test]
fn test_find_reflection() {
    let input = parse_input(VALLEY);

    assert_eq!(Some(Reflection::Col(5)), find_reflection(&input[0], 0));
    assert_eq!(Some(Reflection::Row(4)), find_reflection(&input[1], 0));
}

#[test]
fn test_summarize() {
    assert_eq!(Some(405), summarize(parse_input(VALLEY), 0));
}

#[test]
fn test_flipped() {
    assert_eq!(Some(400), summarize(parse_input(VALLEY), 1));
}

#[test]
fn valley_solutions() {
    assert_eq!(get_solution_1(VALLEY), Some(405));
    assert_eq!(get_solution_2(VALLEY), Some(400));
}

#[test]
fn mismatches_of_single_folds() {
    let input = parse_input(VALLEY);
    assert_eq!(does_reflect_horizontally(&input[1], 4), Some(0));
    assert_eq!(does_reflect_horizontally(&input[1], 1), Some(1));
    assert_eq!(does_reflect_horizontally(&input[0], 3), Some(1));
    assert_eq!(does_reflect_horizontally(&input[0], 0), Some(0));
    assert_eq!(does_reflect_horizontally(&input[0], 7), Some(0));
    assert_eq!(does_reflect_vertically(&input[0], 5), Some(0));
    assert_eq!(does_reflect_vertically(&input[0], 1), Some(2));
}

#[test]
fn smudged_reflections() {
    let input = parse_input(VALLEY);
    assert_eq!(find_reflection(&input[0], 1), Some(Reflection::Row(3)));
    assert_eq!(find_reflection(&input[1], 1), Some(Reflection::Row(1)));
    assert_eq!(find_reflection(&input[1], 50), None);
}

#[test]
fn patterns_without_reflection_or_shape() {
    assert_eq!(summarize(vec![vec![b"#.".to_vec(), b".#".to_vec(), b"##".to_vec()]], 0), None);
    assert_eq!(summarize(vec![vec![b"#.".to_vec(), b"#".to_vec()]], 0), None);
    assert_eq!(summarize(vec![], 0), Some(0));
    assert_eq!(parse_input("").len(), 1);
    assert_eq!(parse_input("ab\n\ncd\nef\n").len(), 2);
}
