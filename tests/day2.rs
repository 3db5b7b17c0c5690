use aoc2023::day2::{part1, part2, Game};

const INPUT: [&str; 5] = [
    "Game 1: 3 blue, 4 red; 1 red, 2 green, 6 blue; 2 green",
    "Game 2: 1 blue, 2 green; 3 green, 4 blue, 1 red; 1 green, 1 blue",
    "Game 3: 8 green, 6 blue, 20 red; 5 blue, 4 red, 13 green; 5 green, 1 red",
    "Game 4: 1 green, 3 red, 6 blue; 3 green, 6 red; 3 green, 15 blue, 14 red",
    "Game 5: 6 red, 1 blue, 3 green; 2 blue, 1 red, 2 green",
];

#[test]
fn day2_part1_test() {
    let sum = part1(INPUT.iter().map(|&s| s.into()).collect());

    assert_eq!(8, sum);
}

#[test]
fn day2_part2_test() {
    let sum = part2(INPUT.iter().map(|&s| s.into()).collect());

    assert_eq!(2286, sum);
}

#[test]
fn one_game_read() {
    let g = Game::new(INPUT[2].to_string());
    assert_eq!(3, g.id);
    assert_eq!((20, 13, 6), g.mins);
    assert_eq!(1560, g.power);
    assert!(!g.valid);
    let g = Game::new(INPUT[0].to_string());
    assert_eq!((4, 2, 6), g.mins);
    assert_eq!(48, g.power);
    assert!(g.valid);
}

#[test]
fn unknown_colours_are_ignored() {
    let g = Game::new("Game 12: 3 purple, 2 red".to_string());
    assert_eq!(12, g.id);
    assert_eq!((2, 0, 0), g.mins);
    assert_eq!(0, g.power);
    assert!(g.valid);
}
