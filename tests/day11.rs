use aoc2023::day11::{manhattan_distance, solve};

const INPUT: &str = "...#......
.......#..
#.........
..........
......#...
.#........
.........#
..........
.......#..
#...#.....";

#[test]
fn solve_test() {
    assert_eq!(374, solve(&INPUT, 2));
    assert_eq!(1030, solve(&INPUT, 10));
    assert_eq!(8410, solve(&INPUT, 100));
}

#[test]
fn distance_counts_empty_lines() {
    let rows = vec![false, true, false];
    let cols = vec![true, false, false];
    assert_eq!(5, manhattan_distance((0, 0), (2, 1), &rows, &cols, 2));
    assert_eq!(0, manhattan_distance((1, 1), (1, 1), &rows, &cols, 5));
    assert_eq!(3, manhattan_distance((0, 0), (2, 1), &rows, &cols, 1));
}
