use aoc2023::day8::{gcd, lcm, lcm_of_vec, part1, part2};

const INPUT1: &str = "RL

AAA = (BBB, CCC)
BBB = (DDD, EEE)
CCC = (ZZZ, GGG)
DDD = (DDD, DDD)
EEE = (EEE, EEE)
GGG = (GGG, GGG)
ZZZ = (ZZZ, ZZZ)";

const INPUT2: &str = "LLR

AAA = (BBB, BBB)
BBB = (AAA, ZZZ)
ZZZ = (ZZZ, ZZZ)";

const INPUT3: &str = "LR

11A = (11B, XXX)
11B = (XXX, 11Z)
11Z = (11B, XXX)
22A = (22B, XXX)
22B = (22C, 22C)
22C = (22Z, 22Z)
22Z = (22B, 22B)
XXX = (XXX, XXX)";

#[test]
fn day8_part1_test() {
    assert_eq!(2, part1(&INPUT1));
    assert_eq!(6, part1(&INPUT2));
}

#[test]
fn day8_part2_test() {
    assert_eq!(6, part2(&INPUT3));
}

#[test]
fn gcd_and_lcm() {
    assert_eq!(6, gcd(12, 18));
    assert_eq!(5, gcd(5, 0));
    assert_eq!(36, lcm(12, 18));
    assert_eq!(0, lcm(0, 7));
    assert_eq!(60, lcm_of_vec(vec![4, 6, 10]));
    assert_eq!(1, lcm_of_vec(vec![]));
}
