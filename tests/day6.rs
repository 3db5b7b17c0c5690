use aoc2023::day6::{calculate_ways, part1, part2};

const INPUT: &str = "
    Time:      7  15   30
    Distance:  9  40  200
";

#[test]
fn day6_part1_test() {
    assert_eq!(288, part1(&INPUT));
}

#[test]
fn day6_part2_test() {
    assert_eq!(71503, part2(&INPUT));
}

#[test]
fn ways_to_win_one_race() {
    assert_eq!(4, calculate_ways(7, 9));
    assert_eq!(8, calculate_ways(15, 40));
    assert_eq!(9, calculate_ways(30, 200));
    assert_eq!(0, calculate_ways(0, 0));
}
