use advent::util::{is_rectangular, Rotate};

#[test]
fn rotate_turns_clockwise() {
    let grid = vec![vec![1, 2, 3], vec![4, 5, 6]];
    assert_eq!(grid.rotate(), vec![vec![4, 1], vec![5, 2], vec![6, 3]]);
    assert_eq!(grid.rotate().rotate().rotate().rotate(), grid);
}

#[test]
fn rotate_of_nothing() {
    let none: Vec<Vec<u8>> = vec![];
    assert_eq!(none.rotate(), none);
    let rows_without_cells: Vec<Vec<u8>> = vec![vec![], vec![]];
    assert_eq!(rows_without_cells.rotate(), none);
}

#[test]
fn rectangles_are_told_apart() {
    assert!(is_rectangular(&vec![vec![1, 2], vec![3, 4]]));
    assert!(!is_rectangular(&vec![vec![1, 2], vec![3]]));
    assert!(is_rectangular::<u8>(&vec![]));
}
