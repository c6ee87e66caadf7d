use advent::d14::{
    copy_grid, do_cycle, find_repetition, get_solution_1, get_solution_2, get_total_load,
    parse_input, same_grid, tilt_up,
};

const PLATFORM: &str = "O....#....
O.OO#....#
.....##...
OO.#O....O
.O.....O#.
O.#..O.#.#
..O..#O..O
.......O..
#....###..
#OO..#....
";

fn rows(grid: &Vec<Vec<u8>>) -> Vec<String> {
    grid.iter().map(|row| String::from_utf8(row.clone()).unwrap()).collect()
}

#[test]
fn test_tilt_up() {
    let grid = parse_input(PLATFORM);
    let new_grid = tilt_up(grid);
    for line in new_grid {
        println!("{:?}", line)
    }
}

#[test]
fn test_get_total_load() {
    let grid = parse_input(PLATFORM);
    let new_grid = tilt_up(grid);
    assert_eq!(Some(136), get_total_load(&new_grid));
}

#[test]
fn test_do_cycle() {
    let grid = parse_input(PLATFORM);
    let new_grid = do_cycle(grid);

    for line in new_grid {
        println!("{}", line.into_iter().map(|b| b as char).collect::<String>());
    }
}

#[test]
fn test_find_repetition() {
    let grid = parse_input(PLATFORM);
    assert_eq!(Some(64), find_repetition(grid));
}

#[test]
fn rocks_roll_to_the_top() {
    let tilted = tilt_up(parse_input(PLATFORM));
    assert_eq!(rows(&tilted), vec![
        "OOOO.#.O..",
        "OO..#....#",
        "OO..O##..O",
        "O..#.OO...",
        "........#.",
        "..#....#.#",
        "..O..#.O.O",
        "..O.......",
        "#....###..",
        "#....#....",
    ]);
}

#[test]
fn one_cycle_and_three() {
    let once = do_cycle(parse_input(PLATFORM));
    assert_eq!(rows(&once), vec![
        ".....#....",
        "....#...O#",
        "...OO##...",
        ".OO#......",
        ".....OOO#.",
        ".O#...O#.#",
        "....O#....",
        "......OOOO",
        "#...O###..",
        "#..OO#....",
    ]);
    let thrice = do_cycle(do_cycle(once));
    assert_eq!(rows(&thrice), vec![
        ".....#....",
        "....#...O#",
        ".....##...",
        "..O#......",
        ".....OOO#.",
        ".O#...O#.#",
        "....O#...O",
        ".......OOO",
        "#...O###.O",
        "#.OOO#...O",
    ]);
}

#[test]
fn platform_solutions() {
    assert_eq!(get_solution_1(PLATFORM), Some(136));
    assert_eq!(get_solution_2(PLATFORM), Some(64));
    assert_eq!(get_solution_1(""), None);
    assert_eq!(get_solution_1("O.\n.\n"), None);
    assert_eq!(get_solution_2("\n"), None);
}

#[test]
fn grids_are_copied_and_compared() {
    let grid = parse_input(PLATFORM);
    let copy = copy_grid(&grid);
    assert_eq!(copy, grid);
    assert!(same_grid(&copy, &grid));
    assert!(!same_grid(&tilt_up(copy), &grid));
    assert!(!same_grid(&vec![], &grid));
}

#[test]
fn load_counts_rows_from_the_bottom() {
    assert_eq!(get_total_load(&vec![b"O.O".to_vec(), b"...".to_vec(), b".O.".to_vec()]), Some(7));
    assert_eq!(get_total_load(&vec![]), Some(0));
}
