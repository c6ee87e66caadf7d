use advent::d08::{
    gcd, get_solution_1, get_solution_2, lcm, nodes_ending_in, parse_input, steps_to_goal,
    traverse, traverse_ghost, Turn,
};

const TWO_STEPS: &str = "RL

AAA = (BBB, CCC)
BBB = (DDD, EEE)
CCC = (ZZZ, GGG)
DDD = (DDD, DDD)
EEE = (EEE, EEE)
GGG = (GGG, GGG)
ZZZ = (ZZZ, ZZZ)
";

const SIX_STEPS: &str = "LLR

AAA = (BBB, BBB)
BBB = (AAA, ZZZ)
ZZZ = (ZZZ, ZZZ)
";

const GHOSTS: &str = "LR

11A = (11B, XXX)
11B = (XXX, 11Z)
11Z = (11B, XXX)
22A = (22B, XXX)
22B = (22C, 22C)
22C = (22Z, 22Z)
22Z = (22B, 22B)
XXX = (XXX, XXX)
";

#[test]
fn network_is_read() {
    let (turns, network) = parse_input(SIX_STEPS).unwrap();
    assert_eq!(turns, vec![Turn::Left, Turn::Left, Turn::Right]);
    assert_eq!(network.names, vec![b"AAA".to_vec(), b"BBB".to_vec(), b"ZZZ".to_vec()]);
    assert_eq!(network.next, vec![(1, 1), (0, 2), (2, 2)]);
    assert_eq!(Turn::from_byte(b'L'), Turn::Left);
    assert_eq!(Turn::from_byte(b'R'), Turn::Right);
    assert_eq!(Turn::from_byte(b'x'), Turn::Right);
}

#[test]
fn networks_that_cannot_be_read() {
    assert!(parse_input("").is_none());
    assert!(parse_input("L\n\nAAA = (BBB, CCC)\n").is_none());
    assert!(parse_input("L\n\nAAA = (AAA\n").is_none());
    assert!(parse_input("L\n").is_some());
}

#[test]
fn later_definition_counts() {
    let (_, network) = parse_input("L\n\nAAA = (AAA, AAA)\nZZZ = (ZZZ, ZZZ)\nAAA = (ZZZ, AAA)\n").unwrap();
    assert_eq!(network.next, vec![(1, 0), (1, 1)]);
}

#[test]
fn walks_to_zzz() {
    assert_eq!(get_solution_1(TWO_STEPS), Some(2));
    assert_eq!(get_solution_1(SIX_STEPS), Some(6));
    let (turns, network) = parse_input(SIX_STEPS).unwrap();
    assert_eq!(traverse(turns, network), Some(6));
}

#[test]
fn walks_that_never_arrive() {
    assert_eq!(get_solution_1("L\n\nAAA = (AAA, ZZZ)\nZZZ = (ZZZ, ZZZ)\n"), None);
    assert_eq!(get_solution_1("L\n\nAAA = (AAA, AAA)\n"), None);
    assert_eq!(get_solution_1("\n\nAAA = (ZZZ, ZZZ)\nZZZ = (ZZZ, ZZZ)\n"), None);
}

#[test]
fn ghosts_arrive_together() {
    assert_eq!(get_solution_2(GHOSTS), Some(6));
    let (turns, network) = parse_input(GHOSTS).unwrap();
    let starts = nodes_ending_in(&network, b'A');
    let goals = nodes_ending_in(&network, b'Z');
    assert_eq!(starts, vec![true, false, false, true, false, false, false, false]);
    assert_eq!(steps_to_goal(&turns, &network, &goals, 0), Some(2));
    assert_eq!(steps_to_goal(&turns, &network, &goals, 3), Some(3));
    assert_eq!(steps_to_goal(&turns, &network, &goals, 7), None);
    assert_eq!(traverse_ghost(turns, network), Some(6));
}

#[test]
fn common_divisors_and_multiples() {
    assert_eq!(gcd(12, 18), 6);
    assert_eq!(gcd(18, 12), 6);
    assert_eq!(gcd(7, 0), 7);
    assert_eq!(gcd(0, 7), 7);
    assert_eq!(gcd(0, 0), 0);
    assert_eq!(gcd(17, 5), 1);
    assert_eq!(lcm(&vec![2, 3]), Some(6));
    assert_eq!(lcm(&vec![4, 6, 10]), Some(60));
    assert_eq!(lcm(&vec![]), Some(0));
    assert_eq!(lcm(&vec![5]), Some(5));
    assert_eq!(lcm(&vec![0, 5]), Some(0));
    assert_eq!(lcm(&vec![usize::MAX, usize::MAX - 1]), None);
}
