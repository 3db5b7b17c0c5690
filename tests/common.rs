use aoc2023::common::get_input_file;
use aoc2023::{day1, day10, day4, ReturnSize};

#[test]
fn input_paths() {
    assert_eq!("inputs/day1", get_input_file(1));
    assert_eq!("inputs/day10", get_input_file(10));
    assert_eq!("inputs/day255", get_input_file(255));
}

#[test]
fn whole_days_from_text() {
    match day1::solve_day("1abc2\ntreb7uchet\n") {
        ReturnSize::U32((a, b)) => {
            assert_eq!(12 + 77, a);
            assert_eq!(12 + 77, b);
        }
        _ => panic!("wrong kind of answer"),
    }
    match day4::solve_day("Card 1: 1 2 | 1 2\nCard 2: 3 | 3") {
        ReturnSize::U32((a, b)) => assert_eq!((3, 3), (a, b)),
        _ => panic!("wrong kind of answer"),
    }
    match day10::solve_day(".....\n.S-7.\n.|.|.\n.L-J.\n.....") {
        Ok(ReturnSize::USIZE((a, b))) => assert_eq!((4, 1), (a, b)),
        _ => panic!("wrong kind of answer"),
    }
}
