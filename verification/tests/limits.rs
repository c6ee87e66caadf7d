use advent::d03;
use advent::d04;
use advent::d06;
use advent::d08;
use advent::d11;
use advent::d17;
use advent::d18;
use advent::d19::PartRange;
use advent::d20;
use advent::d22;
use advent::d23;

#[test]
fn powers_of_two_end_with_the_machine_word() {
    assert_eq!(d04::power_of_two(0), Some(1));
    assert_eq!(d04::power_of_two(3), Some(8));
    let bits = usize::BITS as usize;
    assert_eq!(d04::power_of_two(bits - 1), Some(1usize << (bits - 1)));
    assert_eq!(d04::power_of_two(bits), None);
}

#[test]
fn least_common_multiple_folds_from_the_left() {
    assert_eq!(d08::lcm(&vec![]), Some(0));
    assert_eq!(d08::lcm(&vec![7]), Some(7));
    assert_eq!(d08::lcm(&vec![4, 6]), Some(12));
    assert_eq!(d08::lcm(&vec![4, 6, 10]), Some(60));
    assert_eq!(d08::lcm(&vec![usize::MAX, usize::MAX - 1]), None);
}

#[test]
fn sums_stop_at_the_machine_word() {
    assert_eq!(d11::sum(&vec![]), Some(0));
    assert_eq!(d11::sum(&vec![1, 2, 3]), Some(6));
    assert_eq!(d11::sum(&vec![usize::MAX, 1]), None);
    assert_eq!(d11::sum(&vec![usize::MAX, 0]), Some(usize::MAX));
}

#[test]
fn a_race_of_the_longest_time_is_not_run() {
    assert_eq!(d06::get_solution_1(&vec![(usize::MAX, 0)]), None);
    assert_eq!(d06::get_solution_1(&vec![]), Some(1));
}

#[test]
fn the_queue_has_no_bucket_for_the_greatest_loss() {
    let mut queue = d17::Queue::new();
    assert!(!queue.push(d17::Node::new(usize::MAX, (0, 0), d17::Dir::Down, 0)));
    assert!(queue.pop().is_none());
    assert!(queue.push(d17::Node::new(3, (1, 2), d17::Dir::Right, 1)));
    let node = queue.pop().unwrap();
    assert_eq!(node.cost, 3);
    assert_eq!(node.pos, (1, 2));
    assert_eq!(node.steps, 1);
    assert!(queue.pop().is_none());
}

#[test]
fn no_sides_enclose_one_cell() {
    assert_eq!(d18::picks_theorem(&vec![]), Some(1));
    assert_eq!(d18::picks_theorem(&vec![(isize::MAX, d18::Dir::Right), (1, d18::Dir::Right)]), None);
}

#[test]
fn ranges_are_counted_by_their_lengths() {
    let range = PartRange { x: (1, 4), m: (2, 4), a: (5, 6), s: (0, 10) };
    assert_eq!(range.combinations(), Some(3 * 2 * 1 * 10));
    let empty = PartRange { x: (1, 1), m: (2, 4), a: (5, 6), s: (0, 10) };
    assert_eq!(empty.combinations(), Some(0));
    let backwards = PartRange { x: (4, 1), m: (2, 4), a: (5, 6), s: (0, 10) };
    assert_eq!(backwards.combinations(), None);
    let huge = PartRange { x: (0, usize::MAX), m: (0, 3), a: (0, 1), s: (0, 1) };
    assert_eq!(huge.combinations(), None);
}

#[test]
fn modules_must_send_to_modules() {
    assert!(d20::parse_input("broadcaster -> a\n").is_none());
    assert!(d20::parse_input("broadcaster a\n").is_none());
    assert!(d20::parse_input("a -> rx\n").is_none());
    let graph = d20::parse_input("broadcaster -> a\n%a -> b\n&b -> rx\n").unwrap();
    assert_eq!(graph.names.len(), 4);
    assert_eq!(graph.names[0], b"broadcaster".to_vec());
    assert_eq!(graph.names[3], b"rx".to_vec());
    assert_eq!(graph.nodes[0].children, vec![1]);
    assert_eq!(graph.nodes[1].children, vec![2]);
    assert_eq!(graph.nodes[2].children, vec![3]);
    assert!(graph.nodes[3].children.is_empty());
    match &graph.nodes[2].typ {
        d20::ModuleTypeMem::Conjunction(mem) => assert_eq!(mem, &vec![(1, false)]),
        _ => panic!("the third module is a conjunction"),
    }
}

#[test]
fn trails_are_written_as_they_were_read() {
    let text = "#.##\n#.>#\n##.#\n";
    let map = d23::parse_input(text).unwrap();
    assert_eq!(map.width, 4);
    assert_eq!(map.height, 3);
    assert_eq!(map.to_string(), text);
    assert!(d23::parse_input("#.#\n#x#\n").is_none());
    assert!(d23::parse_input("#.#\n#.\n").is_none());
    assert!(d23::parse_input("").is_none());
}

#[test]
fn a_map_of_one_column_has_no_hike() {
    assert_eq!(d23::get_solution_1(".\n.\n"), None);
    assert_eq!(d23::get_solution_2(".\n.\n"), None);
}

#[test]
fn no_bricks_fit_any_tower() {
    assert!(d22::check_fits(&vec![]));
}

#[test]
fn the_schematic_gets_a_frame_of_dots() {
    assert_eq!(
        d03::parse_input("1\n"),
        Some(vec![vec![46u8, 46, 46], vec![46, 49, 46], vec![46, 46, 46]])
    );
    assert_eq!(d03::parse_input("ab\nc\n"), None);
    assert_eq!(d03::parse_input(""), None);
}
