use advent::d06::{determine_ways_to_beat, get_solution_1, get_solution_2};

#[test]
fn ways_to_beat_a_short_race() {
    assert_eq!(determine_ways_to_beat((7, 9)), vec![2, 3, 4, 5]);
    assert_eq!(determine_ways_to_beat((15, 40)).len(), 8);
    assert_eq!(determine_ways_to_beat((30, 200)).len(), 9);
    assert_eq!(determine_ways_to_beat((0, 0)), Vec::<usize>::new());
    assert_eq!(determine_ways_to_beat((2, 0)), vec![1]);
}

#[test]
fn product_of_the_ways() {
    assert_eq!(get_solution_1(&vec![(7, 9), (15, 40), (30, 200)]), Some(288));
    assert_eq!(get_solution_1(&vec![]), Some(1));
    assert_eq!(get_solution_1(&vec![(7, 9), (3, 100)]), Some(0));
    assert_eq!(get_solution_1(&vec![(usize::MAX, 1)]), None);
}

#[test]
fn one_long_race() {
    assert_eq!(get_solution_2((71530, 940200)), 71503);
}
