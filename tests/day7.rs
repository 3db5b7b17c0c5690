use aoc2023::day7::{part1, part2, Hand, HandType};
use std::cmp::Ordering;

const INPUT: &str = "32T3K 765
T55J5 684
KK677 28
KTJJT 220
QQQJA 483";

#[test]
fn day7_part1_test() {
    assert_eq!(6440, part1(&INPUT));
}

#[test]
fn day7_part2_test() {
    assert_eq!(5905, part2(&INPUT));
}

#[test]
fn wildcard_sort_test() {
    let h1 = Hand::new("JKKK2 1", true);
    let h2 = Hand::new("QQQQ2 1", true);
    let mut hands = vec![h2, h1]; // should sort out
    Hand::sort_weak2strong(&mut hands);
    assert_eq!(
        vec![Hand::new("JKKK2 1", true), Hand::new("QQQQ2 1", true)],
        hands
    );
}

#[test]
fn hand_types() {
    let t = |s: &str, j: bool| Hand::get_type(&s.chars().collect(), j);
    assert_eq!(HandType::OnePair, t("32T3K", false));
    assert_eq!(HandType::ThreeOfKind, t("T55J5", false));
    assert_eq!(HandType::TwoPair, t("KK677", false));
    assert_eq!(HandType::FullHouse, t("23332", false));
    assert_eq!(HandType::HighCard, t("23456", false));
    assert_eq!(HandType::FourOfKind, t("TWWW2", true));
    assert_eq!(HandType::FiveOfKind, t("TWWWT", true));
    assert_eq!(HandType::FiveOfKind, t("WWWWW", true));
    assert_eq!(HandType::FullHouse, t("2233W", true));
}

#[test]
fn stronger_hand_compares_less() {
    let a = Hand::new("33332 1", false);
    let b = Hand::new("2AAAA 1", false);
    assert_eq!(Ordering::Less, a.compare(&b));
    assert_eq!(Ordering::Greater, b.compare(&a));
    assert_eq!(Ordering::Equal, a.compare(&a.clone()));
    assert_eq!(14, Hand::card_rank('A'));
    assert_eq!(1, Hand::card_rank('W'));
    assert_eq!(0, Hand::card_rank('x'));
}

#[test]
fn hand_type_names() {
    assert_eq!("FullHouse", HandType::FullHouse.name());
    assert_eq!("HighCard", Hand::new("23456 7", false).hand_type.name());
}

#[test]
fn equal_hands_keep_their_order() {
    let mut hands = vec![
        Hand::new("KK677 1", false),
        Hand::new("AAAAA 5", false),
        Hand::new("KK677 2", false),
        Hand::new("23456 3", false),
    ];
    Hand::sort_weak2strong(&mut hands);
    let bids: Vec<usize> = hands.iter().map(|h| h.bid).collect();
    assert_eq!(vec![3, 1, 2, 5], bids);
}
