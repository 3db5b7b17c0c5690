//! Camel cards: ranking hands by type, then card by card, with an optional joker rule.
use vstd::prelude::*;

use std::cmp::Ordering;

use crate::text::{after_first, before_first, chars_of, dec_value, find_char, is_number, parse_u128, pieces, split_chars, views, after_char, before_char};
use crate::ReturnSize;

verus! {

/// The kind of a hand, strongest first.
#[derive(PartialEq, Eq, PartialOrd, Ord, Debug, Clone, Copy, Structural)]
pub enum HandType {
    FiveOfKind,
    FourOfKind,
    FullHouse,
    ThreeOfKind,
    TwoPair,
    OnePair,
    HighCard,
}

/// The name of a hand type.
pub open spec fn kind_label(t: HandType) -> Seq<char> {
    match t {
        HandType::FiveOfKind => "FiveOfKind"@,
        HandType::FourOfKind => "FourOfKind"@,
        HandType::FullHouse => "FullHouse"@,
        HandType::ThreeOfKind => "ThreeOfKind"@,
        HandType::TwoPair => "TwoPair"@,
        HandType::OnePair => "OnePair"@,
        HandType::HighCard => "HighCard"@,
    }
}

impl HandType {
    /// The name of the type, as printed.
    pub fn name(&self) -> (r: &'static str)
        ensures
            r@ == kind_label(*self),
    {
        match self {
            HandType::FiveOfKind => "FiveOfKind",
            HandType::FourOfKind => "FourOfKind",
            HandType::FullHouse => "FullHouse",
            HandType::ThreeOfKind => "ThreeOfKind",
            HandType::TwoPair => "TwoPair",
            HandType::OnePair => "OnePair",
            HandType::HighCard => "HighCard",
        }
    }
}

/// A hand of cards and its bid. Under the joker rule each `J` is held as the wildcard `W`.
#[derive(PartialEq, Clone, Debug)]
pub struct Hand {
    pub cards: Vec<char>,
    pub bid: usize,
    pub hand_type: HandType,
}

/// The place of a hand type in the order, strongest first.
pub open spec fn type_order(t: HandType) -> nat {
    match t {
        HandType::FiveOfKind => 0,
        HandType::FourOfKind => 1,
        HandType::FullHouse => 2,
        HandType::ThreeOfKind => 3,
        HandType::TwoPair => 4,
        HandType::OnePair => 5,
        HandType::HighCard => 6,
    }
}

/// The strength of one card; the wildcard is the weakest, anything unknown counts zero.
#[verifier::opaque]
pub open spec fn card_value(c: char) -> u8 {
    if c == 'W' {
        1
    } else if c == '2' {
        2
    } else if c == '3' {
        3
    } else if c == '4' {
        4
    } else if c == '5' {
        5
    } else if c == '6' {
        6
    } else if c == '7' {
        7
    } else if c == '8' {
        8
    } else if c == '9' {
        9
    } else if c == 'T' {
        10
    } else if c == 'J' {
        11
    } else if c == 'Q' {
        12
    } else if c == 'K' {
        13
    } else if c == 'A' {
        14
    } else {
        0
    }
}

/// The first index from `i` on, below both lengths, where the cards differ in strength.
pub open spec fn first_diff(a: Seq<char>, b: Seq<char>, i: int) -> Option<int>
    decreases a.len() - i,
{
    if i < 0 || i >= a.len() || i >= b.len() {
        None
    } else if card_value(a[i]) != card_value(b[i]) {
        Some(i)
    } else {
        first_diff(a, b, i + 1)
    }
}

/// How hand `a` compares with hand `b`: `Less` where `a` is the stronger, so that the
/// strongest comes first.
#[verifier::opaque]
pub open spec fn hand_cmp(a: (Seq<char>, HandType), b: (Seq<char>, HandType)) -> Ordering {
    if type_order(a.1) < type_order(b.1) {
        Ordering::Less
    } else if type_order(a.1) > type_order(b.1) {
        Ordering::Greater
    } else {
        match first_diff(a.0, b.0, 0) {
            Some(k) => if card_value(b.0[k]) < card_value(a.0[k]) {
                Ordering::Less
            } else {
                Ordering::Greater
            },
            None => Ordering::Equal,
        }
    }
}

pub open spec fn key(h: Hand) -> (Seq<char>, HandType) {
    (h.cards@, h.hand_type)
}

/// The counts of the distinct cards of `cs` in order of first appearance, leaving out the
/// wildcard under the joker rule.
pub open spec fn tally(cs: Seq<char>, jokers: bool) -> Seq<(char, nat)>
    decreases cs.len(),
{
    if cs.len() == 0 {
        Seq::empty()
    } else {
        let t = tally(cs.drop_last(), jokers);
        let c = cs.last();
        if jokers && c == 'W' {
            t
        } else {
            match index_of(t, c) {
                Some(i) => t.update(i, (c, t[i].1 + 1)),
                None => t.push((c, 1)),
            }
        }
    }
}

pub open spec fn index_of(t: Seq<(char, nat)>, c: char) -> Option<int>
    decreases t.len(),
{
    if t.len() == 0 {
        None
    } else if t.last().0 == c {
        Some(t.len() - 1)
    } else {
        index_of(t.drop_last(), c)
    }
}

/// The number of wildcards of `cs` under the joker rule.
pub open spec fn wild_count(cs: Seq<char>, jokers: bool) -> nat
    decreases cs.len(),
{
    if cs.len() == 0 {
        0
    } else {
        wild_count(cs.drop_last(), jokers) + if jokers && cs.last() == 'W' {
            1nat
        } else {
            0nat
        }
    }
}

/// The largest and second largest counts of `t` (zero where there are none).
pub open spec fn top2(t: Seq<(char, nat)>) -> (nat, nat)
    decreases t.len(),
{
    if t.len() == 0 {
        (0, 0)
    } else {
        let (a, b) = top2(t.drop_last());
        let x = t.last().1;
        if x > a {
            (x, a)
        } else if x > b {
            (a, x)
        } else {
            (a, b)
        }
    }
}

/// The type that the counts sorted from largest down make: `[5]`, `[4, ..]`, `[3, 2, ..]`,
/// `[3, ..]`, `[2, 2, ..]`, `[2, ..]`, anything else.
pub open spec fn shape(top: nat, second: nat, distinct: nat) -> HandType {
    if top == 5 && distinct == 1 {
        HandType::FiveOfKind
    } else if top == 4 {
        HandType::FourOfKind
    } else if top == 3 && second == 2 {
        HandType::FullHouse
    } else if top == 3 {
        HandType::ThreeOfKind
    } else if top == 2 && second == 2 {
        HandType::TwoPair
    } else if top == 2 {
        HandType::OnePair
    } else {
        HandType::HighCard
    }
}

/// The type of the hand `cs`. Under the joker rule the wildcards join the most common card.
pub open spec fn type_of(cs: Seq<char>, jokers: bool) -> HandType {
    let t = tally(cs, jokers);
    let (a, b) = top2(t);
    let n = a + wild_count(cs, jokers);
    if jokers && n == 5 {
        HandType::FiveOfKind
    } else if jokers && n == 4 {
        HandType::FourOfKind
    } else if jokers && n == 3 && t.len() == 2 {
        HandType::FullHouse
    } else if jokers && n == 3 {
        HandType::ThreeOfKind
    } else if jokers && n == 2 && t.len() == 3 {
        HandType::TwoPair
    } else if jokers && n == 2 {
        HandType::OnePair
    } else {
        shape(a, b, t.len())
    }
}

fn type_rank(t: HandType) -> (r: u8)
    ensures
        r == type_order(t),
{
    match t {
        HandType::FiveOfKind => 0,
        HandType::FourOfKind => 1,
        HandType::FullHouse => 2,
        HandType::ThreeOfKind => 3,
        HandType::TwoPair => 4,
        HandType::OnePair => 5,
        HandType::HighCard => 6,
    }
}

proof fn lemma_tally_bound(cs: Seq<char>, jokers: bool)
    ensures
        tally(cs, jokers).len() <= cs.len(),
        forall|i: int| 0 <= i < tally(cs, jokers).len() ==> #[trigger] tally(cs, jokers)[i].1 <= cs.len(),
        wild_count(cs, jokers) <= cs.len(),
    decreases cs.len(),
{
    if cs.len() > 0 {
        lemma_tally_bound(cs.drop_last(), jokers);
        lemma_index_of(tally(cs.drop_last(), jokers), cs.last());
    }
}

proof fn lemma_index_of(t: Seq<(char, nat)>, c: char)
    ensures
        index_of(t, c) matches Some(i) ==> 0 <= i < t.len() && t[i].0 == c,
        index_of(t, c) is None ==> forall|i: int| 0 <= i < t.len() ==> #[trigger] t[i].0 != c,
    decreases t.len(),
{
    if t.len() > 0 {
        lemma_index_of(t.drop_last(), c);
        assert forall|i: int| 0 <= i < t.len() - 1 implies #[trigger] t[i] == t.drop_last()[i] by {}
    }
}

impl Hand {
    /// The strength of one card.
    pub fn card_rank(card: char) -> (r: u8)
        ensures
            r == card_value(card),
    {
        reveal(card_value);
        match card {
            'W' => 1,
            '2' => 2,
            '3' => 3,
            '4' => 4,
            '5' => 5,
            '6' => 6,
            '7' => 7,
            '8' => 8,
            '9' => 9,
            'T' => 10,
            'J' => 11,
            'Q' => 12,
            'K' => 13,
            'A' => 14,
            _ => 0,
        }
    }

    /// `Less` where this hand is the stronger: first by type, then by the first card that
    /// differs.
    pub fn compare(&self, other: &Hand) -> (r: Ordering)
        ensures
            r == hand_cmp(key(*self), key(*other)),
    {
        reveal(hand_cmp);
        let a = type_rank(self.hand_type);
        let b = type_rank(other.hand_type);
        if a < b {
            return Ordering::Less;
        } else if a > b {
            return Ordering::Greater;
        }
        let ghost x = self.cards@;
        let ghost y = other.cards@;
        let mut i: usize = 0;
        while i < self.cards.len() && i < other.cards.len()
            invariant
                x == self.cards@,
                y == other.cards@,
                type_order(self.hand_type) == type_order(other.hand_type),
                0 <= i <= x.len(),
                first_diff(x, y, 0) == first_diff(x, y, i as int),
            decreases x.len() - i,
        {
            let s = Hand::card_rank(self.cards[i]);
            let o = Hand::card_rank(other.cards[i]);
            if s != o {
                assert(first_diff(x, y, i as int) == Some(i as int));
                assert(first_diff(x, y, 0) == Some(i as int));
                assert(type_order(self.hand_type) == type_order(other.hand_type));
                assert(o == card_value(y[i as int]) && s == card_value(x[i as int]));
                assert(key(*self) == (x, self.hand_type) && key(*other) == (y, other.hand_type));
                if o < s {
                    assert(hand_cmp(key(*self), key(*other)) == Ordering::Less) by {
                        reveal(hand_cmp);
                    }
                    return Ordering::Less;
                } else {
                    assert(hand_cmp(key(*self), key(*other)) == Ordering::Greater) by {
                        reveal(hand_cmp);
                    }
                    return Ordering::Greater;
                }
            }
            i += 1;
        }
        Ordering::Equal
    }

    /// The type of the hand `cards`; under the joker rule each wildcard `W` joins the most
    /// common other card.
    pub fn get_type(cards: &Vec<char>, jokers: bool) -> (r: HandType)
        ensures
            r == type_of(cards@, jokers),
    {
        let ghost cs = cards@;
        let mut counts: Vec<(char, usize)> = Vec::new();
        let mut joker_count: usize = 0;
        let mut i: usize = 0;
        while i < cards.len()
            invariant
                cs == cards@,
                0 <= i <= cs.len(),
                counts@.map_values(|p: (char, usize)| (p.0, p.1 as nat)) == tally(cs.take(i as int), jokers),
                joker_count == wild_count(cs.take(i as int), jokers),
            decreases cs.len() - i,
        {
            let c = cards[i];
            let ghost t0 = tally(cs.take(i as int), jokers);
            assert(cs.take(i + 1).drop_last() =~= cs.take(i as int));
            proof {
                lemma_tally_bound(cs.take(i as int), jokers);
                lemma_index_of(t0, c);
            }
            if jokers && c == 'W' {
                joker_count += 1;
            } else {
                let mut k: usize = counts.len();
                assert(t0.take(k as int) =~= t0);
                while k > 0 && counts[k - 1].0 != c
                    invariant
                        0 <= k <= counts@.len(),
                        t0 == counts@.map_values(|p: (char, usize)| (p.0, p.1 as nat)),
                        index_of(t0, c) == index_of(t0.take(k as int), c),
                    decreases k,
                {
                    assert(t0.take(k as int).drop_last() =~= t0.take(k - 1));
                    k -= 1;
                }
                let ghost cm = counts@;
                if k == 0 {
                    assert(t0.take(0) =~= Seq::<(char, nat)>::empty());
                    counts.push((c, 1));
                    assert(counts@.map_values(|p: (char, usize)| (p.0, p.1 as nat)) =~= t0.push((c, 1)));
                } else {
                    assert(t0.take(k as int).last().0 == c);
                    assert(t0[k - 1].1 <= i);
                    let n = counts[k - 1].1;
                    counts.set(k - 1, (c, n + 1));
                    assert(counts@.map_values(|p: (char, usize)| (p.0, p.1 as nat)) =~= t0.update(k - 1, (c, t0[k - 1].1 + 1)));
                }
            }
            i += 1;
        }
        assert(cs.take(cs.len() as int) =~= cs);
        let ghost t = tally(cs, jokers);
        let mut a: usize = 0;
        let mut b: usize = 0;
        let mut k: usize = 0;
        while k < counts.len()
            invariant
                t == counts@.map_values(|p: (char, usize)| (p.0, p.1 as nat)),
                0 <= k <= counts@.len(),
                (a as nat, b as nat) == top2(t.take(k as int)),
            decreases counts@.len() - k,
        {
            assert(t.take(k + 1).drop_last() =~= t.take(k as int));
            let x = counts[k].1;
            if x > a {
                b = a;
                a = x;
            } else if x > b {
                b = x;
            }
            k += 1;
        }
        assert(t.take(t.len() as int) =~= t);
        proof {
            lemma_tally_bound(cs, jokers);
        }
        let distinct = counts.len();
        if jokers {
            let n = a as u128 + joker_count as u128;
            if n == 5 {
                return HandType::FiveOfKind;
            } else if n == 4 {
                return HandType::FourOfKind;
            } else if n == 3 && distinct == 2 {
                return HandType::FullHouse;
            } else if n == 3 {
                return HandType::ThreeOfKind;
            } else if n == 2 && distinct == 3 {
                return HandType::TwoPair;
            } else if n == 2 {
                return HandType::OnePair;
            }
        }
        if a == 5 && distinct == 1 {
            HandType::FiveOfKind
        } else if a == 4 {
            HandType::FourOfKind
        } else if a == 3 && b == 2 {
            HandType::FullHouse
        } else if a == 3 {
            HandType::ThreeOfKind
        } else if a == 2 && b == 2 {
            HandType::TwoPair
        } else if a == 2 {
            HandType::OnePair
        } else {
            HandType::HighCard
        }
    }
}

/// The cards of a hand line: what precedes its first space, each `J` held as `W` under the
/// joker rule.
pub open spec fn hand_cards(line: Seq<char>, jokers: bool) -> Seq<char> {
    let cs = before_first(line, ' ');
    if jokers {
        cs.map_values(|c: char| if c == 'J' { 'W' } else { c })
    } else {
        cs
    }
}

pub open spec fn hand_bid(line: Seq<char>) -> nat {
    dec_value(after_first(line, ' '))
}

/// `<cards> <bid>`, the bid a number that fits in `usize`.
pub open spec fn hand_ok(line: Seq<char>) -> bool {
    &&& find_char(line, ' ') is Some
    &&& is_number(after_first(line, ' '))
    &&& hand_bid(line) <= usize::MAX
}

pub open spec fn hv(h: Hand) -> (Seq<char>, usize, HandType) {
    (h.cards@, h.bid, h.hand_type)
}

pub open spec fn hvs(v: Seq<Hand>) -> Seq<(Seq<char>, usize, HandType)> {
    v.map_values(|h: Hand| hv(h))
}

proof fn lemma_first_diff_sym(a: Seq<char>, b: Seq<char>, i: int)
    ensures
        first_diff(a, b, i) == first_diff(b, a, i),
    decreases a.len() - i,
{
    if !(i < 0 || i >= a.len() || i >= b.len()) && card_value(a[i]) == card_value(b[i]) {
        lemma_first_diff_sym(a, b, i + 1);
    }
}

proof fn lemma_first_diff_found(a: Seq<char>, b: Seq<char>, i: int)
    ensures
        first_diff(a, b, i) matches Some(k) ==> 0 <= k < a.len() && k < b.len() && card_value(a[k]) != card_value(b[k]),
    decreases a.len() - i,
{
    if !(i < 0 || i >= a.len() || i >= b.len()) && card_value(a[i]) == card_value(b[i]) {
        lemma_first_diff_found(a, b, i + 1);
    }
}

proof fn lemma_hvs_remove(hs: Seq<Hand>)
    requires
        hs.len() > 0,
    ensures
        hvs(hs.remove(0)) == hvs(hs).remove(0),
        hvs(hs)[0] == hv(hs[0]),
{
    assert(hvs(hs.remove(0)) =~= hvs(hs).remove(0));
}

proof fn lemma_hvs_insert(o: Seq<Hand>, h: Hand, p: int)
    requires
        0 <= p <= o.len(),
    ensures
        hvs(o.insert(p, h)) == hvs(o).insert(p, hv(h)),
{
    assert(hvs(o.insert(p, h)) =~= hvs(o).insert(p, hv(h)));
}

/// Hand `i` of `o` is no stronger than the next one.
pub open spec fn step_up(o: Seq<Hand>, i: int) -> bool {
    hand_cmp(key(o[i]), key(o[i + 1])) != Ordering::Less
}

/// Each hand of `o` is no stronger than the next.
pub open spec fn ascending(o: Seq<Hand>) -> bool {
    forall|i: int| 0 <= i < o.len() - 1 ==> #[trigger] step_up(o, i)
}

proof fn lemma_insert_sorted(o: Seq<Hand>, h: Hand, p: int)
    requires
        0 <= p <= o.len(),
        ascending(o),
        p > 0 ==> hand_cmp(key(o[p - 1]), key(h)) != Ordering::Less,
        p < o.len() ==> hand_cmp(key(h), key(o[p])) != Ordering::Less,
    ensures
        ascending(o.insert(p, h)),
{
    let n = o.insert(p, h);
    assert forall|i: int| 0 <= i < n.len() - 1 implies #[trigger] step_up(n, i) by {
        if i < p - 1 {
            assert(n[i] == o[i] && n[i + 1] == o[i + 1]);
            assert(step_up(o, i));
        } else if i == p - 1 {
            assert(n[i] == o[i] && n[i + 1] == h);
        } else if i == p {
            assert(n[i] == h && n[i + 1] == o[i]);
        } else {
            assert(n[i] == o[i - 1] && n[i + 1] == o[i]);
            assert(step_up(o, i - 1));
        }
    }
}

proof fn lemma_add_empty<T>(a: Seq<T>, b: Seq<T>)
    requires
        b.len() == 0,
    ensures
        a.to_multiset().add(b.to_multiset()) == a.to_multiset(),
{
    broadcast use vstd::multiset::group_multiset_axioms, vstd::seq_lib::to_multiset_len;

    assert(b.to_multiset().len() == 0);
    assert(b.to_multiset() =~= vstd::multiset::Multiset::<T>::empty());
    assert(a.to_multiset().add(b.to_multiset()) =~= a.to_multiset());
}

proof fn lemma_empty_add<T>(a: Seq<T>, b: Seq<T>)
    requires
        a.len() == 0,
    ensures
        a.to_multiset().add(b.to_multiset()) == b.to_multiset(),
{
    broadcast use vstd::multiset::group_multiset_axioms, vstd::seq_lib::to_multiset_len;

    assert(a.to_multiset().len() == 0);
    assert(a.to_multiset() =~= vstd::multiset::Multiset::<T>::empty());
    assert(a.to_multiset().add(b.to_multiset()) =~= b.to_multiset());
}

proof fn lemma_move<T>(out: Seq<T>, hs: Seq<T>, p: int)
    requires
        0 <= p <= out.len(),
        hs.len() > 0,
    ensures
        out.insert(p, hs[0]).to_multiset().add(hs.remove(0).to_multiset()) == out.to_multiset().add(hs.to_multiset()),
{
    broadcast use vstd::multiset::group_multiset_axioms;

    vstd::seq_lib::to_multiset_insert(out, p, hs[0]);
    vstd::seq_lib::to_multiset_remove(hs, 0);
    vstd::seq_lib::to_multiset_contains(hs, hs[0]);
    assert(out.insert(p, hs[0]).to_multiset().add(hs.remove(0).to_multiset()) =~= out.to_multiset().add(hs.to_multiset()));
}

/// Of two hands, at most one is the stronger.
pub proof fn lemma_cmp_antisymmetric(a: (Seq<char>, HandType), b: (Seq<char>, HandType))
    ensures
        hand_cmp(a, b) == Ordering::Less ==> hand_cmp(b, a) == Ordering::Greater,
        hand_cmp(a, b) == Ordering::Greater ==> hand_cmp(b, a) == Ordering::Less,
        hand_cmp(a, b) == Ordering::Equal ==> hand_cmp(b, a) == Ordering::Equal,
{
    reveal(hand_cmp);
    lemma_first_diff_sym(a.0, b.0, 0);
    lemma_first_diff_found(a.0, b.0, 0);
}

impl Hand {
    /// Reads `<cards> <bid>`; under the joker rule each `J` becomes the wildcard `W`.
    pub fn new(line: &str, jokers: bool) -> (r: Hand)
        requires
            hand_ok(line@),
        ensures
            r.cards@ == hand_cards(line@, jokers),
            r.bid == hand_bid(line@),
            r.hand_type == type_of(r.cards@, jokers),
    {
        let cs = chars_of(line);
        Hand::from_chars(&cs, jokers)
    }

    /// Reads a hand line given as characters.
    pub fn from_chars(cs: &Vec<char>, jokers: bool) -> (r: Hand)
        requires
            hand_ok(cs@),
        ensures
            r.cards@ == hand_cards(cs@, jokers),
            r.bid == hand_bid(cs@),
            r.hand_type == type_of(r.cards@, jokers),
    {
        let raw = before_char(cs.as_slice(), ' ');
        let bid_text = after_char(cs.as_slice(), ' ');
        let mut cards: Vec<char> = Vec::new();
        let mut i: usize = 0;
        while i < raw.len()
            invariant
                0 <= i <= raw@.len(),
                cards@ == hand_cards(cs@, jokers).take(i as int),
                raw@ == before_first(cs@, ' '),
            decreases raw@.len() - i,
        {
            let c = raw[i];
            if jokers && c == 'J' {
                cards.push('W');
            } else {
                cards.push(c);
            }
            i += 1;
            assert(cards@ =~= hand_cards(cs@, jokers).take(i as int));
        }
        assert(cards@ =~= hand_cards(cs@, jokers));
        let bid = parse_u128(bid_text.as_slice()).unwrap() as usize;
        let hand_type = Hand::get_type(&cards, jokers);
        Hand { cards, bid, hand_type }
    }

    /// Orders the hands from the weakest to the strongest: each is no stronger than the next.
    pub fn sort_weak2strong(hands: &mut Vec<Hand>)
        ensures
            hvs(final(hands)@).to_multiset() == hvs(old(hands)@).to_multiset(),
            ascending(final(hands)@),
            exists|f: Seq<int>| #[trigger] stable_order(old(hands)@, final(hands)@, f),
    {
        let ghost start = hands@;
        let ghost all = hvs(hands@).to_multiset();
        let ghost mut idx: Seq<int> = Seq::empty();
        let ghost mut t: int = 0;
        let mut out: Vec<Hand> = Vec::new();
        proof {
            lemma_empty_add(hvs(out@), hvs(hands@));
            assert(hands@ =~= start.skip(0));
        }
        while hands.len() > 0
            invariant
                hvs(out@).to_multiset().add(hvs(hands@).to_multiset()) == all,
                ascending(out@),
                0 <= t <= start.len(),
                hands@ == start.skip(t),
                taken(start, out@, idx, t),
            decreases hands@.len(),
        {
            let ghost h0 = hands@;
            let h = hands.remove(0);
            proof {
                lemma_hvs_remove(h0);
                assert(h == start[t]);
                assert(hands@ =~= start.skip(t + 1));
            }
            let mut p: usize = out.len();
            while p > 0 && is_less(out[p - 1].compare(&h))
                invariant
                    0 <= p <= out@.len(),
                    forall|q: int| p <= q < out@.len() ==> hand_cmp(key(#[trigger] out@[q]), key(h)) == Ordering::Less,
                decreases p,
            {
                p -= 1;
            }
            let ghost o0 = out@;
            proof {
                if p < o0.len() {
                    lemma_cmp_antisymmetric(key(o0[p as int]), key(h));
                }
                lemma_insert_sorted(o0, h, p as int);
                lemma_hvs_insert(o0, h, p as int);
                lemma_move(hvs(o0), hvs(h0), p as int);
                lemma_stable_insert(start, o0, idx, h, p as int, t);
                idx = idx.insert(p as int, t);
                t = t + 1;
            }
            out.insert(p, h);
        }
        proof {
            lemma_add_empty(hvs(out@), hvs(hands@));
            assert(stable_order(start, out@, idx));
        }
        *hands = out;
    }
}

/// `out` holds the first `t` hands of `start`, hand `i` of `out` being hand `idx[i]` of
/// `start`, and hands that compare equal in the order they had in `start`.
pub open spec fn taken(start: Seq<Hand>, out: Seq<Hand>, idx: Seq<int>, t: int) -> bool {
    &&& idx.len() == out.len() == t
    &&& forall|i: int| 0 <= i < idx.len() ==> 0 <= #[trigger] idx[i] < t && hv(out[i]) == hv(start[idx[i]])
    &&& forall|i: int, j: int| #![trigger idx[i], idx[j]] 0 <= i < j < idx.len() ==> idx[i] != idx[j]
    &&& forall|i: int, j: int|
        #![trigger idx[i], idx[j]]
        0 <= i < j < idx.len() && hand_cmp(key(out[i]), key(out[j])) == Ordering::Equal ==> idx[i] < idx[j]
}

/// `new` is `old` reordered, hand `i` of `new` being hand `f[i]` of `old`, and hands that
/// compare equal keep the order they had in `old`.
pub open spec fn stable_order(old: Seq<Hand>, new: Seq<Hand>, f: Seq<int>) -> bool {
    &&& new.len() == old.len()
    &&& taken(old, new, f, old.len() as int)
}

proof fn lemma_stable_insert(start: Seq<Hand>, o: Seq<Hand>, idx: Seq<int>, h: Hand, p: int, t: int)
    requires
        0 <= t < start.len(),
        h == start[t],
        taken(start, o, idx, t),
        0 <= p <= o.len(),
        forall|q: int| p <= q < o.len() ==> hand_cmp(key(#[trigger] o[q]), key(h)) == Ordering::Less,
    ensures
        taken(start, o.insert(p, h), idx.insert(p, t), t + 1),
{
    let n = o.insert(p, h);
    let m = idx.insert(p, t);
    assert forall|i: int| 0 <= i < m.len() implies 0 <= #[trigger] m[i] < t + 1 && hv(n[i]) == hv(start[m[i]]) by {
        if i < p {
            assert(m[i] == idx[i] && n[i] == o[i]);
        } else if i > p {
            assert(m[i] == idx[i - 1] && n[i] == o[i - 1]);
        }
    }
    assert forall|i: int, j: int| #![trigger m[i], m[j]] 0 <= i < j < m.len() implies m[i] != m[j] && (hand_cmp(key(n[i]), key(n[j])) == Ordering::Equal ==> m[i] < m[j]) by {
        if j < p {
            assert(m[i] == idx[i] && m[j] == idx[j] && n[i] == o[i] && n[j] == o[j]);
        } else if j == p {
            assert(m[i] == idx[i]);
        } else if i < p {
            assert(m[i] == idx[i] && m[j] == idx[j - 1] && n[i] == o[i] && n[j] == o[j - 1]);
        } else if i == p {
            assert(m[j] == idx[j - 1] && n[j] == o[j - 1] && n[i] == h);
            lemma_cmp_antisymmetric(key(o[j - 1]), key(h));
        } else {
            assert(m[i] == idx[i - 1] && m[j] == idx[j - 1] && n[i] == o[i - 1] && n[j] == o[j - 1]);
        }
    }
}

fn is_less(o: Ordering) -> (r: bool)
    ensures
        r == (o == Ordering::Less),
{
    match o {
        Ordering::Less => true,
        _ => false,
    }
}

/// Hand `i` is weaker than hand `j`, or as strong and listed before it.
pub open spec fn below(ks: Seq<(Seq<char>, HandType)>, i: int, j: int) -> bool {
    hand_cmp(ks[j], ks[i]) == Ordering::Less || (hand_cmp(ks[j], ks[i]) == Ordering::Equal && i < j)
}

/// The number of hands among the first `n` that come before hand `j`.
pub open spec fn count_below(ks: Seq<(Seq<char>, HandType)>, j: int, n: int) -> nat
    decreases n,
{
    if n <= 0 {
        0
    } else {
        count_below(ks, j, n - 1) + if below(ks, n - 1, j) {
            1nat
        } else {
            0nat
        }
    }
}

/// The sum over the first `n` hands of the bid times the place, counted from one, that the
/// hand takes once all are ordered from weakest to strongest (ties keep their order).
pub open spec fn winnings(ks: Seq<(Seq<char>, HandType)>, bids: Seq<usize>, n: int) -> nat
    decreases n,
{
    if n <= 0 {
        0
    } else {
        winnings(ks, bids, n - 1) + (bids[n - 1] as nat) * (count_below(ks, n - 1, ks.len() as int) + 1)
    }
}

pub open spec fn keys(ls: Seq<Seq<char>>, jokers: bool) -> Seq<(Seq<char>, HandType)> {
    ls.map_values(|l: Seq<char>| (hand_cards(l, jokers), type_of(hand_cards(l, jokers), jokers)))
}

pub open spec fn bids(ls: Seq<Seq<char>>) -> Seq<usize> {
    ls.map_values(|l: Seq<char>| hand_bid(l) as usize)
}

pub open spec fn total_winnings(s: Seq<char>, jokers: bool) -> nat {
    let ls = pieces(s, '\n');
    winnings(keys(ls, jokers), bids(ls), ls.len() as int)
}

/// Every line is a hand and the total fits in `usize`.
pub open spec fn game_ok(s: Seq<char>, jokers: bool) -> bool {
    &&& forall|i: int| 0 <= i < pieces(s, '\n').len() ==> hand_ok(#[trigger] pieces(s, '\n')[i])
    &&& total_winnings(s, jokers) <= usize::MAX
}

proof fn lemma_winnings_mono(ks: Seq<(Seq<char>, HandType)>, bids: Seq<usize>, n: int, m: int)
    requires
        0 <= n <= m,
    ensures
        winnings(ks, bids, n) <= winnings(ks, bids, m),
    decreases m,
{
    if m > n {
        lemma_winnings_mono(ks, bids, n, m - 1);
    }
}

proof fn lemma_count_below_bound(ks: Seq<(Seq<char>, HandType)>, j: int, n: int)
    ensures
        count_below(ks, j, n) <= if n < 0 { 0 } else { n },
    decreases n,
{
    if n > 0 {
        lemma_count_below_bound(ks, j, n - 1);
    }
}

fn total(input: &str, jokers: bool) -> (r: usize)
    requires
        game_ok(input@, jokers),
    ensures
        r == total_winnings(input@, jokers),
{
    let cs = chars_of(input);
    let ls = split_chars(cs.as_slice(), '\n');
    let ghost l = pieces(input@, '\n');
    let ghost ks = keys(l, jokers);
    let ghost bs = bids(l);
    let mut hands: Vec<Hand> = Vec::new();
    let mut i: usize = 0;
    while i < ls.len()
        invariant
            l == pieces(input@, '\n'),
            views(ls@) == l,
            ks == keys(l, jokers),
            bs == bids(l),
            game_ok(input@, jokers),
            0 <= i <= ls@.len(),
            hands@.len() == i,
            forall|k: int| 0 <= k < i ==> key(#[trigger] hands@[k]) == ks[k] && hands@[k].bid == bs[k],
        decreases ls@.len() - i,
    {
        assert(ls@[i as int]@ == l[i as int]);
        assert(hand_ok(l[i as int]));
        let h = Hand::from_chars(&ls[i], jokers);
        hands.push(h);
        i += 1;
    }
    let n = hands.len();
    let mut sum: usize = 0;
    let mut j: usize = 0;
    while j < n
        invariant
            n == hands@.len(),
            n == ks.len(),
            n == bs.len(),
            ks == keys(l, jokers),
            bs == bids(l),
            l == pieces(input@, '\n'),
            game_ok(input@, jokers),
            forall|k: int| 0 <= k < n ==> key(#[trigger] hands@[k]) == ks[k] && hands@[k].bid == bs[k],
            0 <= j <= n,
            sum == winnings(ks, bs, j as int),
        decreases n - j,
    {
        let mut place: u128 = 1;
        let mut k: usize = 0;
        while k < n
            invariant
                n == hands@.len(),
                n == ks.len(),
                forall|k: int| 0 <= k < n ==> key(#[trigger] hands@[k]) == ks[k] && hands@[k].bid == bs[k],
                0 <= j < n,
                0 <= k <= n,
                place == count_below(ks, j as int, k as int) + 1,
            decreases n - k,
        {
            proof {
                lemma_count_below_bound(ks, j as int, k as int);
            }
            let o = hands[j].compare(&hands[k]);
            let counts = match o {
                Ordering::Less => true,
                Ordering::Equal => k < j,
                Ordering::Greater => false,
            };
            if counts {
                place += 1;
            }
            k += 1;
        }
        proof {
            lemma_winnings_mono(ks, bs, j + 1, n as int);
        }
        assert(bs[j as int] * place <= usize::MAX);
        assert(hands[j as int].bid * place <= usize::MAX);
        let gain = (hands[j].bid as u128 * place) as usize;
        sum = sum + gain;
        j += 1;
    }
    sum
}

/// The total winnings: each bid times its hand's place from the weakest.
pub fn part1(input: &str) -> (r: usize)
    requires
        game_ok(input@, false),
    ensures
        r == total_winnings(input@, false),
{
    total(input, false)
}

/// The total winnings under the joker rule.
pub fn part2(input: &str) -> (r: usize)
    requires
        game_ok(input@, true),
    ensures
        r == total_winnings(input@, true),
{
    total(input, true)
}

/// Both answers for the hands in `input`, one per line.
pub fn solve_day(input: &str) -> (r: ReturnSize)
    requires
        game_ok(input@, false),
        game_ok(input@, true),
    ensures
        r == ReturnSize::USIZE((total_winnings(input@, false) as usize, total_winnings(input@, true) as usize)),
{
    ReturnSize::USIZE((part1(input), part2(input)))
}

} // verus!
