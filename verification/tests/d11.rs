use advent::d11::{get_solution_1, get_solution_2, parse_input, sum, ExpandedUniverse, Universe};

const IMAGE: &str = "...#......
.......#..
#.........
..........
......#...
.#........
.........#
..........
.......#..
#...#.....
";

fn total(rate: usize) -> Option<usize> {
    let dists = parse_input(IMAGE).unwrap().expand(rate).unwrap().shortest_dists().unwrap();
    sum(&dists)
}

#[test]
fn image_is_read() {
    let universe = parse_input(IMAGE).unwrap();
    assert_eq!(universe.width, 10);
    assert_eq!(universe.height, 10);
    assert_eq!(universe.galaxies.len(), 9);
    assert_eq!(universe.galaxies[0], [3, 0]);
    assert_eq!(universe.galaxies[8], [4, 9]);
    assert!(parse_input("#..#").is_none());
}

#[test]
fn empty_lines_grow() {
    let expanded = parse_input(IMAGE).unwrap().expand(1).unwrap();
    assert_eq!(expanded.galaxies[0], [4, 0]);
    assert_eq!(expanded.galaxies[1], [9, 1]);
    assert_eq!(expanded.galaxies[2], [0, 2]);
    assert_eq!(expanded.galaxies[8], [5, 11]);
    let far = Universe { galaxies: vec![[2, 0]], width: 3, height: 1 };
    assert!(far.expand(usize::MAX).is_none());
}

#[test]
fn distances_of_all_pairs() {
    let dists = parse_input(IMAGE).unwrap().expand(1).unwrap().shortest_dists().unwrap();
    assert_eq!(dists.len(), 36);
    assert_eq!(dists[0], 6);
    let three = ExpandedUniverse { galaxies: vec![[0, 0], [3, 4], [1, 1]] };
    assert_eq!(three.shortest_dists(), Some(vec![7, 2, 5]));
}

#[test]
fn sums_of_distances() {
    assert_eq!(total(1), Some(374));
    assert_eq!(total(9), Some(1030));
    assert_eq!(total(99), Some(8410));
    assert_eq!(get_solution_1(IMAGE), Some(374));
    assert_eq!(get_solution_2(IMAGE), Some(82000210));
    assert_eq!(sum(&vec![usize::MAX, 1]), None);
}
