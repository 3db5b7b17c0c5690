use aoc2023::day5::{parse_map, part1_2, remap};

const INPUT: &str = "
seeds: 79 14 55 13

seed-to-soil map:
50 98 2
52 50 48

soil-to-fertilizer map:
0 15 37
37 52 2
39 0 15

fertilizer-to-water map:
49 53 8
0 11 42
42 0 7
57 7 4

water-to-light map:
88 18 7
18 25 70

light-to-temperature map:
45 77 23
81 45 19
68 64 13

temperature-to-humidity map:
0 69 1
1 0 69

humidity-to-location map:
60 56 37
56 93 4
";

#[test]
fn day5_part1_2_test() {
    assert_eq!((35, 46), part1_2(&INPUT));
}

#[test]
fn remap_splits_a_range() {
    let m = vec![(50, 98, 2), (52, 50, 48)];
    assert_eq!(vec![(81, 81)], remap(79, 79, &m));
    assert_eq!(vec![(14, 14)], remap(14, 14, &m));
    assert_eq!(vec![(50, 51), (52, 99), (40, 97), (98, 99)], remap(40, 99, &m));
}

#[test]
fn map_sections_skip_their_title() {
    let section: Vec<char> = "seed-to-soil map:\n50 98 2\n52 50 48".chars().collect();
    assert_eq!(vec![(50, 98, 2), (52, 50, 48)], parse_map(&section));
}
