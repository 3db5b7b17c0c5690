//! Boat races: how many ways to hold the button and still beat the record.
use vstd::prelude::*;

use crate::text::{after_char, after_first, all_numbers, chars_of, dec_value, find_char, is_number, lines, lines_of, nats, parse_u128, parse_words, remove_all, trim, trim_chars, without, word_values};
use crate::ReturnSize;

verus! {

/// The number of whole hold times `h` below `n` for which a race of `time` covers more than
/// `dist`.
pub open spec fn ways_below(time: nat, dist: nat, n: nat) -> nat
    decreases n,
{
    if n == 0 {
        0
    } else {
        ways_below(time, dist, (n - 1) as nat) + if (n - 1) * (time - (n - 1)) > dist {
            1nat
        } else {
            0nat
        }
    }
}

/// The number of hold times that beat the record `dist` in a race of `time`.
pub open spec fn ways(time: nat, dist: nat) -> nat {
    ways_below(time, dist, time)
}

/// Every distance a race of `time` can cover fits in 128 bits.
pub open spec fn products_fit(time: nat) -> bool {
    forall|h: nat| h < time ==> #[trigger] (h * (time - h)) <= u128::MAX
}

proof fn lemma_ways_below_bound(time: nat, dist: nat, n: nat)
    ensures
        ways_below(time, dist, n) <= n,
    decreases n,
{
    if n > 0 {
        lemma_ways_below_bound(time, dist, (n - 1) as nat);
    }
}

/// Counts the hold times that beat the record `distance` in a race of `time`.
pub fn calculate_ways(time: u128, distance: u128) -> (r: u128)
    requires
        products_fit(time as nat),
    ensures
        r == ways(time as nat, distance as nat),
{
    let mut ways_count: u128 = 0;
    let mut hold_time: u128 = 0;
    while hold_time < time
        invariant
            products_fit(time as nat),
            hold_time <= time,
            ways_count == ways_below(time as nat, distance as nat, hold_time as nat),
        decreases time - hold_time,
    {
        proof {
            lemma_ways_below_bound(time as nat, distance as nat, hold_time as nat);
        }
        let speed = hold_time;
        let travel_time = time - hold_time;
        assert(speed * travel_time <= u128::MAX) by {
            assert((hold_time as nat) * ((time - hold_time) as nat) <= u128::MAX);
        }
        let total_distance = speed * travel_time;
        if total_distance > distance {
            ways_count += 1;
        }
        hold_time += 1;
    }
    ways_count
}

/// What follows the first colon of `line` (nothing where there is none).
pub open spec fn field(line: Seq<char>) -> Seq<char> {
    after_first(line, ':')
}

pub open spec fn race_lines(s: Seq<char>) -> Seq<Seq<char>> {
    lines(trim(s))
}

/// The numbers written on a line after its colon.
pub open spec fn race_values(line: Seq<char>) -> Seq<nat> {
    word_values(field(line))
}

pub open spec fn product_ways(times: Seq<nat>, dists: Seq<nat>, k: nat) -> nat
    decreases k,
{
    if k == 0 {
        1
    } else {
        product_ways(times, dists, (k - 1) as nat) * ways(times[k - 1], dists[k - 1])
    }
}

/// Two lines, each with a colon, then numbers: as many times as records.
pub open spec fn races_ok(s: Seq<char>) -> bool {
    let ls = race_lines(s);
    &&& ls.len() >= 2
    &&& find_char(ls[0], ':') is Some
    &&& find_char(ls[1], ':') is Some
    &&& all_numbers(field(ls[0]))
    &&& all_numbers(field(ls[1]))
    &&& race_values(ls[0]).len() == race_values(ls[1]).len()
    &&& forall|i: int| 0 <= i < race_values(ls[0]).len() ==> products_fit(#[trigger] race_values(ls[0])[i])
    &&& forall|k: nat| k <= race_values(ls[0]).len() ==> #[trigger] product_ways(race_values(ls[0]), race_values(ls[1]), k) <= u128::MAX
}

pub open spec fn part1_answer(s: Seq<char>) -> nat {
    let ls = race_lines(s);
    product_ways(race_values(ls[0]), race_values(ls[1]), race_values(ls[0]).len())
}

/// The digits of a line after its colon, with the spaces between them taken out.
pub open spec fn joined(line: Seq<char>) -> Seq<char> {
    without(trim(field(line)), ' ')
}

/// Two lines, each with a colon, then one number written with spaces in it.
pub open spec fn race_ok(s: Seq<char>) -> bool {
    let ls = race_lines(s);
    &&& ls.len() >= 2
    &&& find_char(ls[0], ':') is Some
    &&& find_char(ls[1], ':') is Some
    &&& is_number(joined(ls[0]))
    &&& is_number(joined(ls[1]))
    &&& products_fit(dec_value(joined(ls[0])))
}

/// The product, over the races, of the number of ways to beat each record.
pub fn part1(input: &str) -> (r: u128)
    requires
        races_ok(input@),
    ensures
        r == part1_answer(input@),
{
    let cs = chars_of(input);
    let t = trim_chars(cs.as_slice());
    let ls = lines_of(t.as_slice());
    let ghost l = race_lines(input@);
    assert(ls@[0]@ == l[0] && ls@[1]@ == l[1]);
    let f0 = after_char(ls[0].as_slice(), ':');
    let f1 = after_char(ls[1].as_slice(), ':');
    let times = parse_words(f0.as_slice());
    let distances = parse_words(f1.as_slice());
    let ghost tv = race_values(l[0]);
    let ghost dv = race_values(l[1]);
    let mut product: u128 = 1;
    let mut i: usize = 0;
    while i < times.len()
        invariant
            races_ok(input@),
            l == race_lines(input@),
            tv == race_values(l[0]),
            dv == race_values(l[1]),
            nats(times@) == tv,
            nats(distances@) == dv,
            0 <= i <= times@.len(),
            product == product_ways(tv, dv, i as nat),
        decreases times@.len() - i,
    {
        assert(tv[i as int] == times@[i as int] as nat);
        assert(dv[i as int] == distances@[i as int] as nat);
        assert(products_fit(tv[i as int]));
        let w = calculate_ways(times[i], distances[i]);
        assert(product_ways(tv, dv, (i + 1) as nat) <= u128::MAX);
        product = product * w;
        i += 1;
    }
    product
}

/// The number of ways to beat the record of the one race that the digits, spaces taken out,
/// write.
pub fn part2(input: &str) -> (r: u128)
    requires
        race_ok(input@),
    ensures
        r == ways(dec_value(joined(race_lines(input@)[0])), dec_value(joined(race_lines(input@)[1]))),
{
    let cs = chars_of(input);
    let t = trim_chars(cs.as_slice());
    let ls = lines_of(t.as_slice());
    let ghost l = race_lines(input@);
    assert(ls@[0]@ == l[0] && ls@[1]@ == l[1]);
    let f0 = after_char(ls[0].as_slice(), ':');
    let f1 = after_char(ls[1].as_slice(), ':');
    let t0 = trim_chars(f0.as_slice());
    let t1 = trim_chars(f1.as_slice());
    let j0 = remove_all(t0.as_slice(), ' ');
    let j1 = remove_all(t1.as_slice(), ' ');
    let time = parse_u128(j0.as_slice()).unwrap();
    let distance = parse_u128(j1.as_slice()).unwrap();
    calculate_ways(time, distance)
}

/// Both answers for the races in `input`.
pub fn solve_day(input: &str) -> (r: ReturnSize)
    requires
        races_ok(input@),
        race_ok(input@),
    ensures
        r == ReturnSize::U128(
            (
                part1_answer(input@) as u128,
                ways(dec_value(joined(race_lines(input@)[0])), dec_value(joined(race_lines(input@)[1]))) as u128,
            ),
        ),
{
    ReturnSize::U128((part1(input), part2(input)))
}

} // verus!
