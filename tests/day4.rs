use aoc2023::day4::{part1_2, Card};

const INPUT: [&str; 6] = [
    "Card 1: 41 48 83 86 17 | 83 86  6 31 17  9 48 53",
    "Card 2: 13 32 20 16 61 | 61 30 68 82 17 32 24 19",
    "Card 3:  1 21 53 59 44 | 69 82 63 72 16 21 14  1",
    "Card 4: 41 92 73 84 69 | 59 84 76 51 58  5 54 83",
    "Card 5: 87 83 26 28 32 | 88 30 70 12 93 22 82 36",
    "Card 6: 31 18 13 56 72 | 74 77 10 23 35 67 36 11",
];

#[test]
fn day4_part1_test() {
    let (p1, p2) = part1_2(&INPUT.iter().map(|&s| s.into()).collect());

    assert_eq!(13, p1);
    assert_eq!(30, p2);
}

#[test]
fn card_points_double() {
    let c = Card::new(INPUT[0].to_string());
    assert_eq!(4, c.matches);
    assert_eq!(8, c.value);
    let c = Card::new(INPUT[4].to_string());
    assert_eq!(0, c.matches);
    assert_eq!(0, c.value);
}

#[test]
fn copies_stop_at_the_last_card() {
    let input: Vec<String> = vec!["Card 1: 1 2 | 1 2".into(), "Card 2: 3 | 3".into()];
    assert_eq!((3, 3), part1_2(&input));
}
