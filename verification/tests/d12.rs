use advent::d12::{get_solution_1, get_solution_2, parse_input, Entry, Spring};

const RECORDS: &str = "???.### 1,1,3
.??..??...?##. 1,1,3
?#?#?#?#?#?#?#? 1,3,1,6
????.#...#... 4,1,1
????.######..#####. 1,6,5
?###???????? 3,2,1
";

#[test]
fn test_find_arrangements_rec1() {
    let spring: Entry = Entry::from("???.### 1,1,3");
    assert_eq!(
        Some(1),
        spring
            .unfold()
            .count_arrangements(0, 0, &mut Vec::new())
    );
}

#[test]
fn test_find_arrangements_rec2() {
    let spring: Entry = Entry::from(".??..??...?##. 1,1,3");
    assert_eq!(
        Some(16384),
        spring
            .unfold()
            .count_arrangements(0, 0, &mut Vec::new())
    );
}

#[test]
fn test_find_arrangements_rec3() {
    let spring: Entry = Entry::from("?#?#?#?#?#?#?#? 1,3,1,6");
    assert_eq!(
        Some(1),
        spring
            .unfold()
            .count_arrangements(0, 0, &mut Vec::new())
    );
}

#[test]
fn test_find_arrangements_rec4() {
    let spring: Entry = Entry::from("????.#...#... 4,1,1");
    assert_eq!(
        Some(16),
        spring
            .unfold()
            .count_arrangements(0, 0, &mut Vec::new())
    );
}

#[test]
fn test_find_arrangements_rec5() {
    let spring: Entry = Entry::from("????.######..#####. 1,6,5");
    assert_eq!(
        Some(2500),
        spring
            .unfold()
            .count_arrangements(0, 0, &mut Vec::new())
    );
}

#[test]
fn test_find_arrangements_rec6() {
    let spring: Entry = Entry::from("?###???????? 3,2,1");
    assert_eq!(
        Some(506250),
        spring
            .unfold()
            .count_arrangements(0, 0, &mut Vec::new())
    );
}

#[test]
fn arrangements_of_the_folded_rows() {
    let counts: Vec<Option<usize>> = parse_input(RECORDS)
        .unwrap()
        .iter()
        .map(|entry| entry.count_arrangements(0, 0, &mut entry.blank_memo()))
        .collect();
    assert_eq!(counts, vec![Some(1), Some(4), Some(1), Some(1), Some(4), Some(10)]);
    assert_eq!(get_solution_1(RECORDS), Some(21));
    assert_eq!(get_solution_2(RECORDS), Some(525152));
}

#[test]
fn entries_are_read_and_unfolded() {
    let entry = Entry::from(".# 1");
    assert_eq!(entry.springs, vec![Spring::O, Spring::D]);
    assert_eq!(entry.damaged, vec![1]);
    let unfolded = entry.unfold();
    assert_eq!(unfolded.springs.len(), 14);
    assert_eq!(&unfolded.springs[..5], &[Spring::O, Spring::D, Spring::U, Spring::O, Spring::D]);
    assert_eq!(unfolded.damaged, vec![1, 1, 1, 1, 1]);
    assert_eq!(Spring::from(b'?'), Spring::U);
    assert_eq!(Spring::from(b'x'), Spring::U);
    assert!(Entry::parse(b"???").is_none());
    assert!(parse_input("??? 1\n\n").is_none());
    assert_eq!(Entry::from("?? x,2,y").damaged, vec![2]);
}

#[test]
fn groups_that_fit_or_not() {
    let entry = Entry::from("?#?.## 2,2");
    assert!(entry.is_valid_arrangement(0, 2));
    assert!(entry.is_valid_arrangement(1, 2));
    assert!(!entry.is_valid_arrangement(2, 2));
    assert!(!entry.is_valid_arrangement(0, 1));
    assert!(entry.is_valid_arrangement(4, 2));
    assert!(entry.is_valid_arrangement(6, 0));
    assert!(entry.is_wf());
    assert_eq!(entry.count_arrangements(0, 0, &mut Vec::new()), Some(2));
    assert_eq!(entry.count_arrangements(4, 1, &mut Vec::new()), Some(1));
    assert_eq!(entry.count_arrangements(4, 2, &mut Vec::new()), Some(0));
    assert_eq!(entry.count_arrangements(6, 2, &mut Vec::new()), Some(1));
    assert_eq!(entry.count_arrangements(7, 2, &mut Vec::new()), Some(1));
    assert_eq!(entry.count_arrangements(0, 5, &mut Vec::new()), Some(0));
    let huge = Entry { springs: vec![Spring::U], damaged: vec![usize::MAX, 5] };
    assert!(!huge.is_wf());
}
