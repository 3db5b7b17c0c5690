//! Scratchcards: matching numbers, points, and cards won.
use vstd::prelude::*;

use crate::text::{after_char, after_first, all_numbers, before_char, before_first, chars_of, find_char, lines, lines_of, nats, parse_words, strings, to_char_lines, views, word_values};
use crate::ReturnSize;

verus! {

/// One scratchcard: how many of its numbers win, and the points that makes.
pub struct Card {
    pub matches: u32,
    pub value: u32,
}

/// The winning numbers of a card line: between its colon and its bar.
pub open spec fn winning(line: Seq<char>) -> Seq<char> {
    before_first(after_first(line, ':'), '|')
}

/// The numbers a card line shows: after its bar.
pub open spec fn showing(line: Seq<char>) -> Seq<char> {
    after_first(after_first(line, ':'), '|')
}

/// A line with a colon, then a bar, with numbers of 32 bits around the bar.
pub open spec fn card_ok(line: Seq<char>) -> bool {
    &&& find_char(line, ':') is Some
    &&& find_char(after_first(line, ':'), '|') is Some
    &&& all_numbers(winning(line))
    &&& all_numbers(showing(line))
    &&& forall|i: int| 0 <= i < word_values(winning(line)).len() ==> #[trigger] word_values(winning(line))[i] <= u32::MAX
    &&& forall|i: int| 0 <= i < word_values(showing(line)).len() ==> #[trigger] word_values(showing(line))[i] <= u32::MAX
    &&& word_values(showing(line)).len() <= u32::MAX
}

/// How many items of the first `n` of `shown` occur in `wins`.
pub open spec fn count_hits(shown: Seq<nat>, wins: Seq<nat>, n: int) -> nat
    decreases n,
{
    if n <= 0 {
        0
    } else {
        count_hits(shown, wins, n - 1) + if wins.contains(shown[n - 1]) {
            1nat
        } else {
            0nat
        }
    }
}

pub open spec fn card_matches(line: Seq<char>) -> nat {
    count_hits(word_values(showing(line)), word_values(winning(line)), word_values(showing(line)).len() as int)
}

/// The points for `m` matches: one for the first, doubled for each further one, in 32 bits.
pub open spec fn points(m: nat) -> nat
    decreases m,
{
    if m == 0 {
        0
    } else if points((m - 1) as nat) == 0 {
        1
    } else {
        (2 * points((m - 1) as nat)) % 0x1_0000_0000
    }
}

proof fn lemma_points_bound(m: nat)
    ensures
        points(m) <= u32::MAX,
    decreases m,
{
    if m > 0 {
        lemma_points_bound((m - 1) as nat);
    }
}

proof fn lemma_hits_bound(shown: Seq<nat>, wins: Seq<nat>, n: int)
    requires
        n >= 0,
    ensures
        count_hits(shown, wins, n) <= n,
    decreases n,
{
    if n > 0 {
        lemma_hits_bound(shown, wins, n - 1);
    }
}

fn contains_u128(v: &Vec<u128>, x: u128) -> (r: bool)
    ensures
        r == nats(v@).contains(x as nat),
{
    let mut i: usize = 0;
    while i < v.len()
        invariant
            0 <= i <= v@.len(),
            forall|k: int| 0 <= k < i ==> #[trigger] v@[k] != x,
        decreases v@.len() - i,
    {
        if v[i] == x {
            assert(nats(v@)[i as int] == x as nat);
            return true;
        }
        i += 1;
    }
    assert forall|k: int| 0 <= k < nats(v@).len() implies nats(v@)[k] != x as nat by {
        assert(v@[k] != x);
    }
    false
}

impl Card {
    /// Reads a card line: `Card <id>: <winning numbers> | <numbers shown>`.
    pub fn new(line: String) -> (r: Card)
        requires
            card_ok(line@),
        ensures
            r.matches == card_matches(line@),
            r.value == points(card_matches(line@)),
    {
        let cs = chars_of(line.as_str());
        Card::from_chars(&cs)
    }

    /// Reads a card line given as characters.
    pub fn from_chars(cs: &Vec<char>) -> (r: Card)
        requires
            card_ok(cs@),
        ensures
            r.matches == card_matches(cs@),
            r.value == points(card_matches(cs@)),
    {
        let rem = after_char(cs.as_slice(), ':');
        let winning_str = before_char(rem.as_slice(), '|');
        let showing_str = after_char(rem.as_slice(), '|');
        let wins = parse_words(winning_str.as_slice());
        let shown = parse_words(showing_str.as_slice());
        let ghost wv = nats(wins@);
        let ghost sv = nats(shown@);
        let mut matches: u32 = 0;
        let mut value: u32 = 0;
        let mut i: usize = 0;
        while i < shown.len()
            invariant
                wv == nats(wins@),
                sv == nats(shown@),
                sv.len() <= u32::MAX,
                0 <= i <= shown@.len(),
                matches == count_hits(sv, wv, i as int),
                value == points(matches as nat),
            decreases shown@.len() - i,
        {
            proof {
                lemma_hits_bound(sv, wv, i as int);
            }
            if contains_u128(&wins, shown[i]) {
                assert(sv[i as int] == shown@[i as int] as nat);
                matches += 1;
                value = if value == 0 {
                    1
                } else {
                    ((value as u64 * 2) % 0x1_0000_0000) as u32
                };
            } else {
                assert(sv[i as int] == shown@[i as int] as nat);
            }
            i += 1;
        }
        Card { matches, value }
    }
}

/// The number of copies of card `k`: the card itself plus one per copy of each earlier card
/// whose matches reach it.
pub open spec fn copies(ms: Seq<nat>, k: int) -> nat
    decreases k, 1nat,
{
    1 + won_from(ms, k, k)
}

/// The copies of card `k` won by the cards before index `n`.
pub open spec fn won_from(ms: Seq<nat>, k: int, n: int) -> nat
    decreases n, 0nat,
{
    if n <= 0 {
        0
    } else {
        won_from(ms, k, n - 1) + if n - 1 < k <= n - 1 + ms[n - 1] {
            copies(ms, n - 1)
        } else {
            0
        }
    }
}

/// The number of copies of the first `n` cards together.
pub open spec fn sum_copies(ms: Seq<nat>, n: int) -> nat
    decreases n,
{
    if n <= 0 {
        0
    } else {
        sum_copies(ms, n - 1) + copies(ms, n - 1)
    }
}

pub open spec fn sum_points(ms: Seq<nat>, n: int) -> nat
    decreases n,
{
    if n <= 0 {
        0
    } else {
        sum_points(ms, n - 1) + points(ms[n - 1])
    }
}

pub open spec fn all_matches(ls: Seq<Seq<char>>) -> Seq<nat> {
    ls.map_values(|l: Seq<char>| card_matches(l))
}

proof fn lemma_won_mono(ms: Seq<nat>, k: int, n: int, m: int)
    requires
        0 <= n <= m,
    ensures
        won_from(ms, k, n) <= won_from(ms, k, m),
    decreases m,
{
    if m > n {
        lemma_won_mono(ms, k, n, m - 1);
    }
}

proof fn lemma_sum_copies_mono(ms: Seq<nat>, n: int, m: int)
    requires
        0 <= n <= m,
    ensures
        sum_copies(ms, n) <= sum_copies(ms, m),
    decreases m,
{
    if m > n {
        lemma_sum_copies_mono(ms, n, m - 1);
    }
}

proof fn lemma_sum_points_mono(ms: Seq<nat>, n: int, m: int)
    requires
        0 <= n <= m,
    ensures
        sum_points(ms, n) <= sum_points(ms, m),
    decreases m,
{
    if m > n {
        lemma_sum_points_mono(ms, n, m - 1);
    }
}

/// Every line is a card, and both totals fit in 32 bits.
pub open spec fn cards_ok(ls: Seq<Seq<char>>) -> bool {
    &&& forall|i: int| 0 <= i < ls.len() ==> card_ok(#[trigger] ls[i])
    &&& sum_points(all_matches(ls), ls.len() as int) <= u32::MAX
    &&& sum_copies(all_matches(ls), ls.len() as int) <= u32::MAX
}

/// The points of all cards, and the number of cards held once every won copy is counted.
pub fn part1_2(input: &Vec<String>) -> (r: (u32, u32))
    requires
        cards_ok(strings(input@)),
    ensures
        r.0 == sum_points(all_matches(strings(input@)), input@.len() as int),
        r.1 == sum_copies(all_matches(strings(input@)), input@.len() as int),
{
    let lines = to_char_lines(input);
    score_cards(&lines)
}

fn score_cards(input: &Vec<Vec<char>>) -> (r: (u32, u32))
    requires
        cards_ok(views(input@)),
    ensures
        r.0 == sum_points(all_matches(views(input@)), input@.len() as int),
        r.1 == sum_copies(all_matches(views(input@)), input@.len() as int),
{
    let ghost ms = all_matches(views(input@));
    let n = input.len();
    let mut matches: Vec<u32> = Vec::new();
    let mut part_one: u32 = 0;
    let mut i: usize = 0;
    while i < n
        invariant
            n == input@.len(),
            ms == all_matches(views(input@)),
            cards_ok(views(input@)),
            sum_points(ms, n as int) <= u32::MAX,
            0 <= i <= n,
            matches@.len() == i,
            forall|k: int| 0 <= k < i ==> #[trigger] matches@[k] as nat == ms[k],
            part_one == sum_points(ms, i as int),
        decreases n - i,
    {
        assert(input@[i as int]@ == views(input@)[i as int]);
        assert(card_ok(views(input@)[i as int]));
        let card = Card::from_chars(&input[i]);
        proof {
            lemma_sum_points_mono(ms, i + 1, n as int);
        }
        part_one = part_one + card.value;
        matches.push(card.matches);
        i += 1;
    }
    let mut instances: Vec<u32> = Vec::new();
    let mut k: usize = 0;
    while k < n
        invariant
            0 <= k <= n,
            instances@.len() == k,
            forall|t: int| 0 <= t < k ==> #[trigger] instances@[t] == 1,
        decreases n - k,
    {
        instances.push(1);
        k += 1;
    }
    let mut part_two: u32 = 0;
    i = 0;
    while i < n
        invariant
            n == matches@.len(),
            ms.len() == n,
            forall|k: int| 0 <= k < n ==> #[trigger] matches@[k] as nat == ms[k],
            sum_copies(ms, n as int) <= u32::MAX,
            0 <= i <= n,
            instances@.len() == n,
            forall|t: int| 0 <= t < n ==> #[trigger] instances@[t] == 1 + won_from(ms, t, if t < i { t } else { i as int }),
            part_two == sum_copies(ms, i as int),
        decreases n - i,
    {
        let inst = instances[i];
        assert(inst == copies(ms, i as int));
        proof {
            lemma_sum_copies_mono(ms, i + 1, n as int);
        }
        let m = matches[i];
        let mut j: usize = 1;
        while j <= m as usize && j < n - i
            invariant
                n == matches@.len(),
                ms.len() == n,
                0 <= i < n,
                m as nat == ms[i as int],
                inst == copies(ms, i as int),
                sum_copies(ms, n as int) <= u32::MAX,
                1 <= j,
                j <= m as usize + 1 || i + j >= n,
                instances@.len() == n,
                forall|t: int| 0 <= t < n ==> #[trigger] instances@[t] == 1 + won_from(ms, t, if t <= i { t } else if t < i + j { i + 1 } else { i as int }),
            decreases n - i - j,
        {
            let t = i + j;
            proof {
                lemma_won_mono(ms, t as int, i + 1, t as int);
                lemma_copies_le_sum(ms, t as int, n as int);
            }
            instances.set(t, instances[t] + inst);
            j += 1;
        }
        assert forall|t: int| 0 <= t < n implies #[trigger] instances@[t] == 1 + won_from(ms, t, if t < i + 1 { t } else { i + 1 }) by {
            if t > i {
                if !(t < i + j) {
                    assert(!(i < t <= i + ms[i as int]));
                }
            }
        }
        part_two = part_two + inst;
        i += 1;
    }
    (part_one, part_two)
}

proof fn lemma_copies_le_sum(ms: Seq<nat>, t: int, n: int)
    requires
        0 <= t < n,
    ensures
        copies(ms, t) <= sum_copies(ms, n),
{
    lemma_sum_copies_mono(ms, t + 1, n);
}

/// Both answers for the cards in `input`, one per line.
pub fn solve_day(input: &str) -> (r: ReturnSize)
    requires
        cards_ok(lines(input@)),
    ensures
        r == ReturnSize::U32(
            (
                sum_points(all_matches(lines(input@)), lines(input@).len() as int) as u32,
                sum_copies(all_matches(lines(input@)), lines(input@).len() as int) as u32,
            ),
        ),
{
    let cs = chars_of(input);
    let ls = lines_of(cs.as_slice());
    ReturnSize::U32(score_cards(&ls))
}

} // verus!
