use advent::d02::{
    determine_fewest, get_solution_1, get_solution_2, index, index_mut, parse_input, too_many,
    Color,
};

const GAMES: &str = "Game 1: 3 blue, 4 red; 1 red, 2 green, 6 blue; 2 green
Game 2: 1 blue, 2 green; 3 green, 4 blue, 1 red; 1 green, 1 blue
Game 3: 8 green, 6 blue, 20 red; 5 blue, 4 red, 13 green; 5 green, 1 red
Game 4: 1 green, 3 red, 6 blue; 3 green, 6 red; 3 green, 15 blue, 14 red
Game 5: 6 red, 1 blue, 3 green; 2 blue, 1 red, 2 green
";

#[test]
fn colours_and_their_places() {
    assert_eq!(Color::from(b"red"), Some(Color::R));
    assert_eq!(Color::from(b"green"), Some(Color::G));
    assert_eq!(Color::from(b"blue"), Some(Color::B));
    assert_eq!(Color::from(b"pink"), None);
    assert_eq!(Color::from(b"reds"), None);
    let mut draw = [1, 2, 3];
    assert_eq!(index(&draw, Color::R), 1);
    assert_eq!(index(&draw, Color::G), 2);
    assert_eq!(index(&draw, Color::B), 3);
    index_mut(&mut draw, Color::G, 9);
    assert_eq!(draw, [1, 9, 3]);
}

#[test]
fn games_are_read() {
    let games = parse_input(GAMES).unwrap();
    assert_eq!(games.len(), 5);
    assert_eq!(games[0], vec![[4, 0, 3], [1, 2, 6], [0, 2, 0]]);
    assert_eq!(games[2][0], [20, 8, 6]);
    assert!(parse_input("Game 1 3 blue\n").is_none());
    assert!(parse_input("Game 1: 3 pink\n").is_none());
    assert!(parse_input("Game 1: blue\n").is_none());
    assert!(parse_input("Game 1: x blue\n").is_none());
    assert!(parse_input("Game 1:").is_none());
}

#[test]
fn bags_that_allow_a_game() {
    let games = parse_input(GAMES).unwrap();
    let max = [12, 13, 14];
    let allowed: Vec<bool> = games.iter().map(|game| !too_many(game, &max)).collect();
    assert_eq!(allowed, vec![true, true, false, false, true]);
    assert_eq!(determine_fewest(&games[0]), [4, 2, 6]);
    assert_eq!(determine_fewest(&games[2]), [20, 13, 6]);
    assert_eq!(determine_fewest(&vec![]), [0, 0, 0]);
    assert!(!too_many(&vec![], &max));
    assert!(too_many(&vec![[0, 0, 15]], &max));
}

#[test]
fn sums_over_the_games() {
    assert_eq!(get_solution_1(GAMES), Some(8));
    assert_eq!(get_solution_2(GAMES), Some(2286));
    assert_eq!(get_solution_1(""), Some(0));
}
