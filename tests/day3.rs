use aoc2023::day3::{extract_number, part1_2, solve_day};
use aoc2023::ReturnSize;

const INPUT: [&str; 10] = [
    "467..114..",
    "...*......",
    "..35..633.",
    "......#...",
    "617*......",
    ".....+.58.",
    "..592.....",
    "......755.",
    "...$.*....",
    ".664.598..",
];

#[test]
fn day3_part1_2_test() {
    let (p1, p2) = part1_2(INPUT.iter().map(|&s| s.into()).collect());

    assert_eq!(4361, p1);
    assert_eq!(467835, p2);
}

#[test]
fn number_through_an_index() {
    let row: Vec<char> = "467..114..".chars().collect();
    assert_eq!(Some(467), extract_number(&row, 1));
    assert_eq!(Some(114), extract_number(&row, 7));
    assert_eq!(None, extract_number(&row, 3));
    assert_eq!(None, extract_number(&row, 10));
}

#[test]
fn a_number_counts_once_per_row() {
    let input: Vec<String> = vec!["12.".into(), ".*.".into(), "12.".into()];
    assert_eq!((24, 144), part1_2(input));
}

#[test]
fn carriage_returns_end_lines() {
    let unix = INPUT.join("\n");
    let windows = INPUT.join("\r\n") + "\r\n";
    match (solve_day(&unix), solve_day(&windows)) {
        (ReturnSize::U32(a), ReturnSize::U32(b)) => {
            assert_eq!((4361, 467835), a);
            assert_eq!(a, b);
        }
        _ => panic!("wrong kind of answer"),
    }
}
