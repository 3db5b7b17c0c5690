use aoc2023::day1::{extract_digits_from_line, part1, part2, replace_exec};

const PART1_INPUT: [&str; 4] = ["1abc2", "pqr3stu8vwx", "a1b2c3d4e5f", "treb7uchet"];
const PART2_INPUT: [&str; 8] = [
    "two1nine",
    "eightwothree",
    "abcone2threexyz",
    "xtwone3four",
    "4nineeightseven2",
    "zoneight234",
    "7pqrstsixteen",
    "8eightwo",
];

#[test]
fn day1_part1_test() {
    assert_eq!(142, part1(&PART1_INPUT.iter().map(|&s| s.into()).collect()));
}

#[test]
fn day1_part2_test() {
    assert_eq!(281 + 82, part2(&PART2_INPUT.iter().map(|&s| s.into()).collect()));
}

#[test]
fn digits_of_a_line() {
    assert_eq!(Some(('1', '2')), extract_digits_from_line("1abc2"));
    assert_eq!(Some(('7', '7')), extract_digits_from_line("treb7uchet"));
    assert_eq!(None, extract_digits_from_line("abc"));
    assert_eq!(None, extract_digits_from_line(""));
}

#[test]
fn lines_without_digits_count_zero() {
    let input: Vec<String> = vec!["abc".into(), "x9y".into()];
    assert_eq!(99, part1(&input));
    assert_eq!(0, part1(&Vec::new()));
}

#[test]
fn overlapping_words_keep_both_digits() {
    let input: Vec<String> = vec!["eightwo".into()];
    assert_eq!(82, part2(&input));
    let s: Vec<char> = "oneone".chars().collect();
    let pat: Vec<char> = "one".chars().collect();
    let rep: Vec<char> = "on1e".chars().collect();
    let out: String = replace_exec(&s, &pat, &rep).into_iter().collect();
    assert_eq!("on1eon1e", out);
}
