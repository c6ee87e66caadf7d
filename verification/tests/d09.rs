use advent::d09::{get_solution_1, get_solution_2, parse_input, reversed};

const HISTORIES: &str = "0 3 6 9 12 15\n1 3 6 10 15 21\n10 13 16 21 30 45\n";

#[test]
fn histories_are_continued() {
    assert_eq!(advent::d09::derive(&vec![0, 3, 6, 9, 12, 15]), Some(18));
    assert_eq!(advent::d09::derive(&vec![1, 3, 6, 10, 15, 21]), Some(28));
    assert_eq!(advent::d09::derive(&vec![10, 13, 16, 21, 30, 45]), Some(68));
    assert_eq!(advent::d09::derive(&vec![]), Some(0));
    assert_eq!(advent::d09::derive(&vec![0, 0, 0]), Some(0));
    assert_eq!(advent::d09::derive(&vec![5]), Some(5));
    assert_eq!(advent::d09::derive(&vec![-3, -5, -7]), Some(-9));
}

#[test]
fn histories_that_leave_the_machine_word() {
    assert_eq!(advent::d09::derive(&vec![isize::MIN, isize::MAX]), None);
    assert_eq!(advent::d09::derive(&vec![0, isize::MAX]), None);
    assert_eq!(advent::d09::derive(&vec![isize::MAX]), Some(isize::MAX));
}

#[test]
fn sums_of_continuations() {
    assert_eq!(get_solution_1(HISTORIES), Some(114));
    assert_eq!(get_solution_2(HISTORIES), Some(2));
    assert_eq!(get_solution_1(""), Some(0));
}

#[test]
fn rows_are_read_and_reversed() {
    assert_eq!(parse_input("1 -2 x +3\n\n4\n"), vec![vec![1, -2, 3], vec![], vec![4]]);
    assert_eq!(reversed(&vec![1, 2, 3]), vec![3, 2, 1]);
    assert_eq!(reversed(&vec![]), Vec::<isize>::new());
}
