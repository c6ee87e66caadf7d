use advent::d01::{find_number, get_solution_1, get_solution_2, parse_input, parse_number};

const DIGITS: &str = "1abc2\npqr3stu8vwx\na1b2c3d4e5f\ntreb7uchet\n";

const WORDS: &str = "two1nine
eightwothree
abcone2threexyz
xtwone3four
4nineeightseven2
zoneight234
7pqrstsixteen
";

#[test]
fn test_part2() {
    assert_eq!(Some(281), get_solution_2(WORDS));
}

#[test]
fn digits_alone() {
    assert_eq!(get_solution_1(DIGITS), Some(142));
    assert_eq!(get_solution_1(WORDS), None);
    assert_eq!(get_solution_1(""), Some(0));
    assert_eq!(get_solution_2(DIGITS), Some(142));
    assert_eq!(get_solution_2("abc\n"), Some(0));
}

#[test]
fn numbers_in_digits_and_letters() {
    assert_eq!(parse_number(b"7x"), Some(7));
    assert_eq!(parse_number(b"0"), Some(0));
    assert_eq!(parse_number(b"one"), Some(1));
    assert_eq!(parse_number(b"twone"), Some(2));
    assert_eq!(parse_number(b"three3"), Some(3));
    assert_eq!(parse_number(b"four"), Some(4));
    assert_eq!(parse_number(b"five"), Some(5));
    assert_eq!(parse_number(b"six"), Some(6));
    assert_eq!(parse_number(b"seven"), Some(7));
    assert_eq!(parse_number(b"eight"), Some(8));
    assert_eq!(parse_number(b"nine"), Some(9));
    assert_eq!(parse_number(b"zero"), Some(0));
    assert_eq!(parse_number(b"on"), None);
    assert_eq!(parse_number(b"xone"), None);
    assert_eq!(parse_number(b"One"), None);
}

#[test]
fn first_and_last_number_of_a_line() {
    let line = b"xtwone3four".to_vec();
    assert_eq!(find_number(&line, false), Some((1, 2)));
    assert_eq!(find_number(&line, true), Some((7, 4)));
    assert_eq!(find_number(&b"eightwo".to_vec(), true), Some((4, 2)));
    assert_eq!(find_number(&b"abc".to_vec(), false), None);
    assert_eq!(find_number(&Vec::new(), true), None);
    assert_eq!(parse_input("a\nb\n"), vec![b"a".to_vec(), b"b".to_vec()]);
}
