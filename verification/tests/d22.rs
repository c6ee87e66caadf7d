use advent::d22::{
    check_fits, drop_bricks, drop_bricks_counted, get_solution_1, get_solution_2, parse_input,
    sort_by_height, Brick, X, Y, Z,
};
use std::collections::HashMap;

const SNAPSHOT: &str = "1,0,1~1,2,1
0,0,2~2,0,2
0,2,3~2,2,3
0,0,4~0,2,4
2,0,5~2,2,5
0,1,6~2,1,6
1,1,8~1,1,9
";

#[test]
fn test_get_solution_1() {
    println!("{:?}", get_solution_1(SNAPSHOT));
}

#[test]
fn test_get_solution_2() {
    println!("{:?}", get_solution_2(SNAPSHOT));
}

#[test]
fn d22_test_parse_input() {
    for b in parse_input(SNAPSHOT).unwrap() {
        println!("{b:?}");
    }
}

#[test]
fn test_rests_on_other() {
    let names = ['A', 'B', 'C', 'D', 'E', 'F', 'G'];
    let bricks = parse_input(SNAPSHOT).unwrap();

    // named_bricks
    let nb: HashMap<char, Brick> = names.into_iter().zip(bricks).collect();
    assert!(nb[&'A'].supports(&nb[&'B']));
    assert!(!nb[&'B'].supports(&nb[&'C']));
    assert!(nb[&'C'].supports(&nb[&'D']));
    assert!(!nb[&'D'].supports(&nb[&'E']));
    assert!(nb[&'E'].supports(&nb[&'F']));

    let g = &nb[&'G'];

    for n in ['A', 'B', 'C', 'D', 'E', 'F'] {
        assert!(!nb[&n].supports(g));
    }
}

#[test]
#[allow(non_snake_case)]
fn test_drop_bricks() {
    let (A, B, C, D, E, F, G) = (0, 1, 2, 3, 4, 5, 6);

    let bricks = parse_input(SNAPSHOT).unwrap();

    assert_eq!(bricks[G].start[Z], 8);
    let dropped_bricks = drop_bricks(bricks);
    assert_eq!(dropped_bricks[A].start[Z], 1);
    assert_eq!(dropped_bricks[B].start[Z], 2);
    assert_eq!(dropped_bricks[C].start[Z], 2);
    assert_eq!(dropped_bricks[D].start[Z], 3);
    assert_eq!(dropped_bricks[E].start[Z], 3);
    assert_eq!(dropped_bricks[F].start[Z], 4);
    assert_eq!(dropped_bricks[G].start[Z], 5);
}

#[test]
fn test_safe_to_disintegrate() {
    let bricks = parse_input(SNAPSHOT).unwrap();

    let dropped_bricks = drop_bricks(bricks);

    let num_to_disintegrate = dropped_bricks
        .iter()
        .filter(|b| b.safe_to_disintegrate(&dropped_bricks))
        .count();

    assert_eq!(num_to_disintegrate, 5);
}

#[test]
#[allow(non_snake_case)]
fn test_overlaps() {
    // A and B are the same
    let A = (0, 1);
    let B = (0, 1);
    assert!(Brick::overlaps_helper(A, B));

    // A and B have the same start, but A is longer
    let A = (0, 2);
    let B = (0, 1);
    assert!(Brick::overlaps_helper(A, B));

    // A and B have the same start, but B is longer
    let A = (0, 1);
    let B = (0, 2);
    assert!(Brick::overlaps_helper(A, B));

    // A is fully contained in B
    let A = (1, 2);
    let B = (0, 3);
    assert!(Brick::overlaps_helper(A, B));

    // B is fully contained in B
    let A = (0, 3);
    let B = (1, 2);
    assert!(Brick::overlaps_helper(A, B));

    // A starts later than B and ends later
    let A = (2, 3);
    let B = (1, 2);
    assert!(Brick::overlaps_helper(A, B));

    // A starts earlier than B and ends earlier
    let A = (1, 2);
    let B = (2, 3);
    assert!(Brick::overlaps_helper(A, B));

    // They don't overlap
    let A = (4, 5);
    let B = (2, 3);
    assert!(!Brick::overlaps_helper(A, B));
}

#[test]
fn test_disintegrate() {
    let dropped_bricks = drop_bricks(parse_input(SNAPSHOT).unwrap());
    let sum = dropped_bricks
        .iter()
        .filter(|b| !b.safe_to_disintegrate(&dropped_bricks))
        .map(|b| b.disintegrate(&dropped_bricks))
        .sum::<usize>();

    assert_eq!(sum, 7);
}

#[test]
fn snapshot_solutions() {
    assert_eq!(get_solution_1(SNAPSHOT), Some(5));
    assert_eq!(get_solution_2(SNAPSHOT), Some(7));
}

#[test]
fn bricks_that_cannot_be_read() {
    assert!(parse_input("1,0,1~1,2\n").is_none());
    assert!(parse_input("1,0,1 1,2,1\n").is_none());
    assert!(parse_input("1,3,1~1,2,1\n").is_none());
    assert!(parse_input("1,0,x~1,2,1\n").is_none());
    assert_eq!(parse_input("").unwrap().len(), 0);
    assert_eq!(
        parse_input("1,0,1~1,2,1\n").unwrap(),
        vec![Brick { start: [1, 0, 1], end: [1, 2, 1] }]
    );
}

#[test]
fn bricks_fall_in_order_of_height() {
    let high = Brick { start: [0, 0, 9], end: [0, 0, 12] };
    let low = Brick { start: [0, 0, 4], end: [1, 0, 4] };
    let aside = Brick { start: [5, 5, 4], end: [5, 5, 4] };
    assert_eq!(sort_by_height(&vec![high, low, aside]), vec![low, aside, high]);
    let dropped = drop_bricks(vec![high, low, aside]);
    assert_eq!(dropped[0], Brick { start: [0, 0, 1], end: [1, 0, 1] });
    assert_eq!(dropped[1], Brick { start: [5, 5, 1], end: [5, 5, 1] });
    assert_eq!(dropped[2], Brick { start: [0, 0, 2], end: [0, 0, 5] });
    assert_eq!(high.drop_down_to(2), Brick { start: [0, 0, 2], end: [0, 0, 5] });
}

#[test]
fn only_bricks_above_the_gap_are_counted() {
    let bricks = vec![
        Brick { start: [0, 0, 3], end: [0, 0, 3] },
        Brick { start: [0, 0, 5], end: [0, 0, 5] },
        Brick { start: [1, 1, 1], end: [1, 1, 1] },
    ];
    assert_eq!(drop_bricks_counted(bricks.clone(), 0), 2);
    assert_eq!(drop_bricks_counted(bricks.clone(), 3), 1);
    assert_eq!(drop_bricks_counted(bricks, 5), 0);
}

#[test]
fn overlap_along_an_axis_and_sameness() {
    let a = Brick { start: [0, 0, 1], end: [2, 0, 1] };
    let b = Brick { start: [2, 0, 2], end: [2, 3, 2] };
    let c = Brick { start: [3, 0, 2], end: [3, 3, 2] };
    assert!(a.overlaps(&b, X));
    assert!(a.overlaps(&b, Y));
    assert!(!a.overlaps(&b, Z));
    assert!(!a.overlaps(&c, X));
    assert!(a.supports(&b));
    assert!(!a.supports(&c));
    assert!(!b.supports(&a));
    assert!(a.is_same(&a));
    assert!(!a.is_same(&b));
}

#[test]
fn towers_that_do_not_fit() {
    assert!(check_fits(&vec![Brick { start: [0, 0, 1], end: [0, 0, 7] }]));
    assert!(!check_fits(&vec![Brick { start: [0, 0, 1], end: [0, 0, usize::MAX] }]));
    assert!(!check_fits(&vec![Brick { start: [0, 0, 1], end: [0, 0, usize::MAX / 2] }]));
    assert_eq!(get_solution_1("0,0,1~0,0,18446744073709551615\n"), None);
}
