use advent::d07::{
    determine_total_winnings, get_solution_1, get_solution_2, parse_input, sort_bids, Card, Hand,
};
use std::cmp::Ordering;

const BIDS: &str = "32T3K 765\nT55J5 684\nKK677 28\nKTJJT 220\nQQQJA 483\n";

#[test]
fn test_is_n_1() {
    let hand: Hand = Hand::from("A2345");
    assert!(hand.is_n(1, 0).is_some());
}

#[test]
fn test_is_n_2() {
    let hand: Hand = Hand::from("A234A");
    assert!(hand.is_n(2, 0).is_some());
}

#[test]
fn test_is_n_3() {
    let hand: Hand = Hand::from("A2A4A");
    assert!(hand.is_n(3, 0).is_some());
}

#[test]
fn test_is_n_4() {
    let hand: Hand = Hand::from("AA3AA");
    assert!(hand.is_n(4, 0).is_some());
}

#[test]
fn test_is_five() {
    let hand: Hand = Hand::from("AAAAA");
    assert!(hand.is_five());
}

#[test]
fn test_is_four() {
    let hand: Hand = Hand::from("AAAA4");
    assert!(hand.is_four());
}

#[test]
fn test_is_full_house() {
    let hand: Hand = Hand::from("AATTT");
    assert!(hand.is_full_house());
}

#[test]
fn test_is_three() {
    let hand: Hand = Hand::from("AA2AT");
    assert!(hand.is_three());
}

#[test]
fn test_is_double_pair() {
    let hand: Hand = Hand::from("AAT2T");
    assert!(hand.is_double_pair());
}

#[test]
fn test_four_is_not_double_pair() {
    assert!(!Hand::from("AATAA").is_double_pair());
}

#[test]
fn test_is_pair() {
    let hand: Hand = Hand::from("A234A");
    println!("{}", hand.to_string());
    assert!(hand.is_pair());
}

#[test]
fn test_comparison_same_type() {
    let greater: Hand = Hand::from("KK677");
    let lesser: Hand = Hand::from("KTJJT");
    assert!(greater.is_pair() && lesser.is_pair());
    assert!(greater.compare(&lesser) == Ordering::Greater);
}

#[test]
fn test_full_house_2() {
    let first: Hand = Hand::from("77J7T");
    let second: Hand = Hand::from("77JJJ");

    assert!(!first.is_full_house());
    assert!(second.is_full_house());
}

#[test]
fn test_correct_order() {
    let mut hands: Vec<Hand> = parse_input(BIDS)
        .unwrap()
        .into_iter()
        .map(|(hand, _)| hand)
        .collect();
    hands.sort_by(|a, b| a.compare(&b));
    for h in &hands {
        println!("{}", h.to_string());
    }
}

#[test]
fn test_total_winnings() {
    let hands = parse_input(BIDS).unwrap();
    let result = determine_total_winnings(hands).unwrap();
    println!("{result}");
}

#[test]
fn test_score_joker_four() {
    let hand: Hand = Hand::from("T55J5");
    assert_eq!(hand.score_joker(), 5);
}

#[test]
fn test_score_joker_full_house() {
    let hand: Hand = Hand::from("2233J");
    assert_eq!(hand.score_joker(), 4);
}

#[test]
fn test_solution_p2() {
    println!("{:?}", get_solution_1(BIDS));
}

#[test]
fn winnings_of_the_five_bids() {
    assert_eq!(get_solution_1(BIDS), Some(6440));
    assert_eq!(get_solution_2(BIDS), Some(5905));
}

#[test]
fn bids_are_ordered_weakest_first() {
    let sorted = sort_bids(&parse_input(BIDS).unwrap());
    let texts: Vec<String> = sorted.iter().map(|(hand, _)| hand.to_string()).collect();
    assert_eq!(texts, vec!["32T3K", "KTJJT", "KK677", "T55J5", "QQQJA"]);
    let amounts: Vec<usize> = sorted.iter().map(|(_, amount)| *amount).collect();
    assert_eq!(amounts, vec![765, 220, 28, 684, 483]);
}

#[test]
fn equal_hands_keep_their_order() {
    let bids = parse_input("23456 1\n22222 2\n23456 3\n").unwrap();
    let amounts: Vec<usize> = sort_bids(&bids).iter().map(|(_, amount)| *amount).collect();
    assert_eq!(amounts, vec![1, 3, 2]);
}

#[test]
fn winnings_that_do_not_fit() {
    let bids = vec![(Hand::from("23456"), usize::MAX), (Hand::from("22222"), 1)];
    assert_eq!(determine_total_winnings(bids), None);
    assert_eq!(determine_total_winnings(vec![]), Some(0));
}

#[test]
fn card_values_and_characters() {
    assert_eq!(Card::J.value(false), 11);
    assert_eq!(Card::J.value(true), 1);
    assert_eq!(Card::Two.value(true), 2);
    assert_eq!(Card::T.value(false), 10);
    assert_eq!(Card::A.value(false), 14);
    assert_eq!(Card::from_char('Q'), Some(Card::Q));
    assert_eq!(Card::from_char('1'), None);
    assert_eq!(Card::K.to_char(), 'K');
    assert_eq!(Card::default(), Card::Two);
}

#[test]
fn hands_are_read_card_by_card() {
    let hand = Hand::parse("T55J5").unwrap();
    assert_eq!(hand.cards, [Card::T, Card::Five, Card::Five, Card::J, Card::Five]);
    assert!(!hand.p2);
    assert_eq!(Hand::parse("AK").unwrap().cards, [Card::A, Card::K, Card::Two, Card::Two, Card::Two]);
    assert_eq!(Hand::parse("AKQJT9"), None);
    assert_eq!(Hand::parse("AKx"), None);
    assert_eq!(hand.to_string(), "T55J5");
}

#[test]
fn kinds_of_hands() {
    let kinds = [("AAAAA", 6), ("AA8AA", 5), ("23332", 4), ("TTT98", 3), ("23432", 2), ("A23A4", 1), ("23456", 0)];
    for (text, kind) in kinds {
        assert_eq!(Hand::from(text).score(), kind);
    }
}

#[test]
fn jokers_raise_the_kind() {
    let kinds = [("JJJJJ", 6), ("JJJJ2", 6), ("QJJQ2", 5), ("KTJJT", 5), ("QQQJA", 5), ("2345J", 1), ("23456", 0), ("2233J", 4)];
    for (text, kind) in kinds {
        let mut hand = Hand::from(text);
        hand.p2 = true;
        assert_eq!(hand.score_joker(), kind);
    }
    let hand = Hand::from("T55J5");
    assert_eq!(hand.upgrade(0), 1);
    assert_eq!(hand.upgrade(1), 3);
    assert_eq!(hand.upgrade(2), 4);
    assert_eq!(hand.upgrade(3), 5);
    assert_eq!(hand.upgrade(5), 6);
}

#[test]
fn jokers_are_weakest_card_by_card() {
    let mut first = Hand::from("JKKK2");
    let mut second = Hand::from("QQQQ2");
    assert_eq!(first.compare_strongest_card(&second), Ordering::Less);
    first.p2 = true;
    second.p2 = true;
    assert_eq!(first.compare(&second), Ordering::Less);
    assert_eq!(second.compare(&first), Ordering::Greater);
    assert_eq!(first.compare(&first), Ordering::Equal);
    assert!(second.exceeds(&first));
    assert!(!first.exceeds(&second));
}

#[test]
fn bids_that_cannot_be_read() {
    assert!(parse_input("32T3K\n").is_none());
    assert!(parse_input("32T3X 5\n").is_none());
    assert!(parse_input("32T3K five\n").is_none());
    assert_eq!(parse_input("").unwrap().len(), 0);
}
