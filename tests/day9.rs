use aoc2023::day9::{differences, differences_prev, extrapolate_next_value, extrapolate_prev_value, part1, part2};

const INPUT: &str = "0 3 6 9 12 15
1 3 6 10 15 21
10 13 16 21 30 45";

#[test]
fn day9_part1_test() {
    assert_eq!(114, part1(&INPUT));
}

#[test]
fn day9_part2_test() {
    assert_eq!(2, part2(&INPUT));
}

#[test]
fn one_sequence_each_way() {
    assert_eq!(68, extrapolate_next_value("10 13 16 21 30 45"));
    assert_eq!(5, extrapolate_prev_value("10 13 16 21 30 45"));
    assert_eq!(-3, extrapolate_prev_value("0 3 6 9 12 15"));
    assert_eq!(7, extrapolate_next_value("7"));
    assert_eq!(-8, extrapolate_next_value("-2 -4 -6"));
}

#[test]
fn difference_rows() {
    assert_eq!(vec![3, 3, 4], differences(&vec![1, 4, 7, 11]));
    assert_eq!(vec![-3, -3, -4], differences_prev(&vec![1, 4, 7, 11]));
    assert!(differences(&vec![5]).is_empty());
}
