use advent::d05::{
    get_solution_1, get_solution_2, map_to_location, map_to_location_range, parse_input,
    seed_ranges, MapEntry,
};

const ALMANAC: &str = "seeds: 79 14 55 13

seed-to-soil map:
50 98 2
52 50 48

soil-to-fertilizer map:
0 15 37
37 52 2
39 0 15

fertilizer-to-water map:
49 53 8
0 11 42
42 0 7
57 7 4

water-to-light map:
88 18 7
18 25 70

light-to-temperature map:
45 77 23
81 45 19
68 64 13

temperature-to-humidity map:
0 69 1
1 0 69

humidity-to-location map:
60 56 37
56 93 4
";

#[test]
fn test_solution_1() {
    println!("{:?}", get_solution_1(ALMANAC));
}

#[test]
fn test_solution_2() {
    println!("{:?}", get_solution_2(ALMANAC));
}

#[test]
fn test_overlapping_right() {
    let map = MapEntry { dest: 20, source: 34, range: 5 };
    let seed = vec![(39, 42)];
    let mut mapped_seeds = Vec::new();
    let actual = map.do_split(seed, &mut mapped_seeds);
    println!("{:?}", actual);
    assert_eq!(actual, vec![(39, 42)]);
    assert!(mapped_seeds.is_empty());
}

#[test]
fn test_overlapping_left() {
    let map = MapEntry { dest: 20, source: 34, range: 5 };
    let seed = vec![(30, 33)];
    let mut mapped_seeds = Vec::new();
    let actual = map.do_split(seed, &mut mapped_seeds);
    println!("{:?}", actual);
    assert_eq!(actual, vec![(30, 33)]);
}

#[test]
fn test_overlapping_center_right() {
    let map = MapEntry { dest: 20, source: 34, range: 5 };
    let seed = vec![(38, 42)];
    let mut mapped_seeds = Vec::new();
    let actual = map.do_split(seed, &mut mapped_seeds);
    println!("{:?}", actual);
    assert_eq!(actual, vec![(39, 42)]);
    assert_eq!(mapped_seeds, vec![(24, 25)]);
}

#[test]
fn test_overlapping_right_center_left() {
    let map = MapEntry { dest: 20, source: 34, range: 5 };
    let seed = vec![(30, 42)];
    let mut mapped_seeds = Vec::new();
    let actual = map.do_split(seed, &mut mapped_seeds);
    println!("{:?}", actual);
    assert_eq!(actual, vec![(30, 34), (39, 42)]);
    assert_eq!(mapped_seeds, vec![(20, 25)]);
}

#[test]
fn test_overlapping_center() {
    let map = MapEntry { dest: 20, source: 34, range: 5 };
    let seed = vec![(35, 39)];
    let mut mapped_seeds = Vec::new();
    let actual = map.do_split(seed, &mut mapped_seeds);
    println!("{:?}", actual);
    assert!(actual.is_empty());
    assert_eq!(mapped_seeds, vec![(21, 25)]);
}

#[test]
fn split_keeps_what_was_mapped_before() {
    let map = MapEntry { dest: 20, source: 34, range: 5 };
    let mut mapped_seeds = vec![(1, 2)];
    let actual = map.do_split(vec![(30, 42), (35, 36), (0, 5)], &mut mapped_seeds);
    assert_eq!(actual, vec![(30, 34), (39, 42), (0, 5)]);
    assert_eq!(mapped_seeds, vec![(1, 2), (20, 25), (21, 22)]);
}

#[test]
fn entry_range_and_conversion() {
    let map = MapEntry { dest: 52, source: 50, range: 48 };
    assert!(!map.in_range(49));
    assert!(map.in_range(50));
    assert!(map.in_range(97));
    assert!(!map.in_range(98));
    assert_eq!(map.try_convert(79), Some(81));
    assert_eq!(map.try_convert(98), None);
    let down = MapEntry { dest: 0, source: 15, range: 37 };
    assert_eq!(down.try_convert(15), Some(0));
    assert_eq!(down.try_convert(51), Some(36));
    assert_eq!(down.try_convert(14), None);
}

#[test]
fn almanac_is_read() {
    let (seeds, maps) = parse_input(ALMANAC).unwrap();
    assert_eq!(seeds, vec![79, 14, 55, 13]);
    assert_eq!(maps.len(), 7);
    assert_eq!(maps[0], vec![
        MapEntry { dest: 50, source: 98, range: 2 },
        MapEntry { dest: 52, source: 50, range: 48 },
    ]);
    assert_eq!(maps[6].len(), 2);
}

#[test]
fn almanac_with_a_short_entry_is_refused() {
    assert!(parse_input("seeds: 1\n\na map:\n1 2\n").is_none());
    assert!(parse_input("").is_none());
    assert!(parse_input("seeds 1 2\n").is_none());
    assert!(parse_input("seeds: 1\n\na map:\n1 18446744073709551615 2\n").is_none());
}

#[test]
fn seeds_reach_their_locations() {
    let (_, maps) = parse_input(ALMANAC).unwrap();
    assert_eq!(map_to_location(79, &maps), 82);
    assert_eq!(map_to_location(14, &maps), 43);
    assert_eq!(map_to_location(55, &maps), 86);
    assert_eq!(map_to_location(13, &maps), 35);
}

#[test]
fn nearest_locations() {
    assert_eq!(get_solution_1(ALMANAC), Some(35));
    assert_eq!(get_solution_2(ALMANAC), Some(46));
    assert_eq!(get_solution_1("seeds:\n"), Some(usize::MAX));
    assert_eq!(get_solution_2("seeds:\n"), None);
}

#[test]
fn seed_numbers_pair_up() {
    assert_eq!(seed_ranges(&vec![79, 14, 55, 13]), Some(vec![(79, 93), (55, 68)]));
    assert_eq!(seed_ranges(&vec![79, 14, 55]), Some(vec![(79, 93)]));
    assert_eq!(seed_ranges(&vec![usize::MAX, 1]), None);
}

#[test]
fn ranges_go_through_one_map() {
    let maps = vec![vec![
        MapEntry { dest: 50, source: 98, range: 2 },
        MapEntry { dest: 52, source: 50, range: 48 },
    ]];
    assert_eq!(
        map_to_location_range(vec![(79, 93), (96, 100)], &maps),
        vec![(50, 52), (81, 95), (98, 100)]
    );
}
