use advent::d04::{contains, count_matches, get_solution_1, get_solution_2, parse_input, power_of_two};

const CARDS: &str = "Card 1: 41 48 83 86 17 | 83 86  6 31 17  9 48 53
Card 2: 13 32 20 16 61 | 61 30 68 82 17 32 24 19
Card 3:  1 21 53 59 44 | 69 82 63 72 16 21 14  1
Card 4: 41 92 73 84 69 | 59 84 76 51 58  5 54 83
Card 5: 87 83 26 28 32 | 88 30 70 12 93 22 82 36
Card 6: 31 18 13 56 72 | 74 77 10 23 35 67 36 11
";

#[test]
fn cards_are_read() {
    let cards = parse_input(CARDS).unwrap();
    assert_eq!(cards.len(), 6);
    assert_eq!(cards[0].0, vec![41, 48, 83, 86, 17]);
    assert_eq!(cards[0].1, vec![83, 86, 6, 31, 17, 9, 48, 53]);
    assert_eq!(parse_input("Card 1: 5 5 x 7 | 7 7\n").unwrap(), vec![(vec![5, 7], vec![7])]);
    assert!(parse_input("Card 1 5 | 7\n").is_none());
    assert!(parse_input("Card 1: 5 7\n").is_none());
}

#[test]
fn matches_are_counted() {
    let cards = parse_input(CARDS).unwrap();
    let counts: Vec<usize> = cards.iter().map(|(actual, win)| count_matches(actual, win)).collect();
    assert_eq!(counts, vec![4, 2, 2, 1, 0, 0]);
    assert!(contains(&vec![1, 2, 3], 2));
    assert!(!contains(&vec![1, 2, 3], 4));
    assert!(!contains(&vec![], 4));
}

#[test]
fn powers_of_two() {
    assert_eq!(power_of_two(0), Some(1));
    assert_eq!(power_of_two(3), Some(8));
    assert_eq!(power_of_two(63), Some(1 << 63));
    assert_eq!(power_of_two(64), None);
}

#[test]
fn points_and_copies() {
    assert_eq!(get_solution_1(CARDS), Some(13));
    assert_eq!(get_solution_2(CARDS), Some(30));
    assert_eq!(get_solution_1(""), Some(0));
    assert_eq!(get_solution_2("Card 1: 5 | 5\n"), None);
}
