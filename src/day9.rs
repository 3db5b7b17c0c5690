//! Extrapolating number sequences by repeated differences.
use vstd::prelude::*;

use crate::text::{chars_of, in_i64, pieces, signed_value, split_chars, views, words, words_of, parse_i64};
use crate::ReturnSize;

verus! {

/// The differences of neighbouring items: later minus earlier.
pub open spec fn diffs(s: Seq<int>) -> Seq<int> {
    Seq::new((if s.len() > 0 { s.len() - 1 } else { 0 }) as nat, |i: int| s[i + 1] - s[i])
}

pub open spec fn all_zero(s: Seq<int>) -> bool {
    forall|i: int| 0 <= i < s.len() ==> #[trigger] s[i] == 0
}

/// The next item of `s`: its last item plus the next item of its differences, until the
/// differences are all zero.
pub open spec fn next_value(s: Seq<int>) -> int
    decreases s.len(),
{
    if s.len() == 0 {
        0
    } else if all_zero(diffs(s)) {
        s.last()
    } else {
        s.last() + next_value(diffs(s))
    }
}

/// The differences of neighbouring items: earlier minus later.
pub open spec fn back_diffs(s: Seq<int>) -> Seq<int> {
    Seq::new((if s.len() > 0 { s.len() - 1 } else { 0 }) as nat, |i: int| s[i] - s[i + 1])
}

/// The item before `s`: its first item plus the item before its backward differences, until
/// those are all zero.
pub open spec fn prev_value(s: Seq<int>) -> int
    decreases s.len(),
{
    if s.len() == 0 {
        0
    } else if all_zero(back_diffs(s)) {
        s[0]
    } else {
        s[0] + prev_value(back_diffs(s))
    }
}

pub open spec fn all_i64(s: Seq<int>) -> bool {
    forall|i: int| 0 <= i < s.len() ==> in_i64(#[trigger] s[i])
}

/// Every difference row of `s`, and every partial answer going forwards, fits in 64 bits.
pub open spec fn tame(s: Seq<int>) -> bool
    decreases s.len(),
{
    &&& all_i64(s)
    &&& in_i64(next_value(s))
    &&& (s.len() > 0 && !all_zero(diffs(s)) ==> tame(diffs(s)))
}

/// Every backward difference row of `s`, and every partial answer going backwards, fits in
/// 64 bits.
pub open spec fn tame_back(s: Seq<int>) -> bool
    decreases s.len(),
{
    &&& all_i64(s)
    &&& in_i64(prev_value(s))
    &&& (s.len() > 0 && !all_zero(back_diffs(s)) ==> tame_back(back_diffs(s)))
}

pub open spec fn ints(s: Seq<i64>) -> Seq<int> {
    s.map_values(|v: i64| v as int)
}

/// The numbers of a line, where each of its words writes one.
pub open spec fn numbers(line: Seq<char>) -> Seq<int> {
    words(line).map_values(|w: Seq<char>| signed_value(w)->0)
}

/// A line that holds at least one number, each fitting in 64 bits, with tame differences.
pub open spec fn line_ok(line: Seq<char>) -> bool {
    &&& words(line).len() > 0
    &&& forall|i: int| 0 <= i < words(line).len() ==> #[trigger] signed_value(words(line)[i]) is Some
    &&& tame(numbers(line))
    &&& tame_back(numbers(line))
}

pub open spec fn sum_next(ls: Seq<Seq<char>>) -> int
    decreases ls.len(),
{
    if ls.len() == 0 {
        0
    } else {
        sum_next(ls.drop_last()) + next_value(numbers(ls.last()))
    }
}

pub open spec fn sum_prev(ls: Seq<Seq<char>>) -> int
    decreases ls.len(),
{
    if ls.len() == 0 {
        0
    } else {
        sum_prev(ls.drop_last()) + prev_value(numbers(ls.last()))
    }
}

/// Every line is well formed and every running total fits in 64 bits.
pub open spec fn input_ok(ls: Seq<Seq<char>>) -> bool {
    &&& forall|i: int| 0 <= i < ls.len() ==> line_ok(#[trigger] ls[i])
    &&& forall|k: int| 0 <= k <= ls.len() ==> in_i64(#[trigger] sum_next(ls.take(k)))
    &&& forall|k: int| 0 <= k <= ls.len() ==> in_i64(#[trigger] sum_prev(ls.take(k)))
}

/// The differences of neighbouring items of `seq`: later minus earlier.
pub fn differences(seq: &Vec<i64>) -> (r: Vec<i64>)
    requires
        all_i64(diffs(ints(seq@))),
    ensures
        ints(r@) == diffs(ints(seq@)),
{
    let ghost d = diffs(ints(seq@));
    let mut r: Vec<i64> = Vec::new();
    let mut i: usize = 1;
    while i < seq.len()
        invariant
            d == diffs(ints(seq@)),
            all_i64(d),
            1 <= i,
            i <= seq@.len() || i == 1,
            ints(r@) == d.take(i - 1),
        decreases seq@.len() - i,
    {
        assert(in_i64(d[i - 1]));
        let v = seq[i] - seq[i - 1];
        let ghost r0 = r@;
        r.push(v);
        assert(ints(r@) =~= ints(r0).push(v as int));
        assert(d.take(i as int) =~= d.take(i - 1).push(d[i - 1]));
        i += 1;
    }
    if seq.len() > 0 {
        assert(i == seq@.len());
        assert(d.len() == i - 1);
    } else {
        assert(d.len() == 0);
    }
    assert(d.take(i - 1) =~= d);
    assert(ints(r@) =~= d);
    r
}

/// The differences of neighbouring items of `seq`: earlier minus later.
pub fn differences_prev(seq: &Vec<i64>) -> (r: Vec<i64>)
    requires
        all_i64(back_diffs(ints(seq@))),
    ensures
        ints(r@) == back_diffs(ints(seq@)),
{
    let ghost d = back_diffs(ints(seq@));
    let mut r: Vec<i64> = Vec::new();
    let mut i: usize = 1;
    while i < seq.len()
        invariant
            d == back_diffs(ints(seq@)),
            all_i64(d),
            1 <= i,
            i <= seq@.len() || i == 1,
            ints(r@) == d.take(i - 1),
        decreases seq@.len() - i,
    {
        assert(in_i64(d[i - 1]));
        let v = seq[i - 1] - seq[i];
        let ghost r0 = r@;
        r.push(v);
        assert(ints(r@) =~= ints(r0).push(v as int));
        assert(d.take(i as int) =~= d.take(i - 1).push(d[i - 1]));
        i += 1;
    }
    if seq.len() > 0 {
        assert(i == seq@.len());
        assert(d.len() == i - 1);
    } else {
        assert(d.len() == 0);
    }
    assert(d.take(i - 1) =~= d);
    assert(ints(r@) =~= d);
    r
}

fn is_all_zero(s: &Vec<i64>) -> (r: bool)
    ensures
        r == all_zero(ints(s@)),
{
    let mut i: usize = 0;
    while i < s.len()
        invariant
            0 <= i <= s@.len(),
            forall|k: int| 0 <= k < i ==> #[trigger] s@[k] == 0,
        decreases s@.len() - i,
    {
        if s[i] != 0 {
            assert(ints(s@)[i as int] != 0);
            return false;
        }
        i += 1;
    }
    assert forall|k: int| 0 <= k < ints(s@).len() implies #[trigger] ints(s@)[k] == 0 by {
        assert(s@[k] == 0);
    }
    true
}

fn next_of(s: &Vec<i64>) -> (r: i64)
    requires
        s@.len() > 0,
        tame(ints(s@)),
    ensures
        r == next_value(ints(s@)),
    decreases s@.len(),
{
    let ghost v = ints(s@);
    assert(all_i64(diffs(v))) by {
        assert forall|i: int| 0 <= i < diffs(v).len() implies in_i64(#[trigger] diffs(v)[i]) by {
            if !all_zero(diffs(v)) {
                assert(tame(diffs(v)));
            } else {
                assert(diffs(v)[i] == 0);
            }
        }
    }
    let d = differences(s);
    let last = s[s.len() - 1];
    if is_all_zero(&d) {
        last
    } else {
        assert(tame(diffs(v)));
        assert(d@.len() > 0);
        let rest = next_of(&d);
        last + rest
    }
}

fn prev_of(s: &Vec<i64>) -> (r: i64)
    requires
        s@.len() > 0,
        tame_back(ints(s@)),
    ensures
        r == prev_value(ints(s@)),
    decreases s@.len(),
{
    let ghost v = ints(s@);
    assert(all_i64(back_diffs(v))) by {
        assert forall|i: int| 0 <= i < back_diffs(v).len() implies in_i64(#[trigger] back_diffs(v)[i]) by {
            if !all_zero(back_diffs(v)) {
                assert(tame_back(back_diffs(v)));
            } else {
                assert(back_diffs(v)[i] == 0);
            }
        }
    }
    let d = differences_prev(s);
    let first = s[0];
    if is_all_zero(&d) {
        first
    } else {
        assert(tame_back(back_diffs(v)));
        assert(d@.len() > 0);
        let rest = prev_of(&d);
        first + rest
    }
}

fn numbers_of(line: &[char]) -> (r: Vec<i64>)
    requires
        line_ok(line@),
    ensures
        ints(r@) == numbers(line@),
{
    let ws = words_of(line);
    let ghost w = words(line@);
    let mut r: Vec<i64> = Vec::new();
    let mut i: usize = 0;
    while i < ws.len()
        invariant
            line_ok(line@),
            w == words(line@),
            views(ws@) == w,
            0 <= i <= ws@.len(),
            ints(r@) == numbers(line@).take(i as int),
        decreases ws@.len() - i,
    {
        assert(ws@[i as int]@ == w[i as int]);
        assert(signed_value(w[i as int]) is Some);
        assert(all_i64(numbers(line@)));
        assert(in_i64(numbers(line@)[i as int]));
        let v = parse_i64(ws[i].as_slice());
        let ghost r0 = r@;
        r.push(v.unwrap());
        assert(ints(r@) =~= ints(r0).push(numbers(line@)[i as int]));
        assert(numbers(line@).take(i + 1) =~= numbers(line@).take(i as int).push(numbers(line@)[i as int]));
        i += 1;
    }
    assert(ints(r@) =~= numbers(line@));
    r
}

/// The next number of the sequence on `line`.
pub fn extrapolate_next_value(line: &str) -> (r: i64)
    requires
        line_ok(line@),
    ensures
        r == next_value(numbers(line@)),
{
    let cs = chars_of(line);
    let v = numbers_of(cs.as_slice());
    next_of(&v)
}

/// The number before the sequence on `line`.
pub fn extrapolate_prev_value(line: &str) -> (r: i64)
    requires
        line_ok(line@),
    ensures
        r == prev_value(numbers(line@)),
{
    let cs = chars_of(line);
    let v = numbers_of(cs.as_slice());
    prev_of(&v)
}

/// The sum of the next numbers of the sequences, one per line.
pub fn part1(input: &str) -> (r: i64)
    requires
        input_ok(pieces(input@, '\n')),
    ensures
        r == sum_next(pieces(input@, '\n')),
{
    let cs = chars_of(input);
    let ls = split_chars(cs.as_slice(), '\n');
    let ghost l = pieces(input@, '\n');
    let mut total: i64 = 0;
    let mut i: usize = 0;
    while i < ls.len()
        invariant
            l == pieces(input@, '\n'),
            views(ls@) == l,
            input_ok(l),
            0 <= i <= ls@.len(),
            total == sum_next(l.take(i as int)),
        decreases ls@.len() - i,
    {
        assert(ls@[i as int]@ == l[i as int]);
        assert(line_ok(l[i as int]));
        let v = numbers_of(ls[i].as_slice());
        let n = next_of(&v);
        assert(l.take(i + 1).drop_last() =~= l.take(i as int));
        assert(in_i64(sum_next(l.take(i + 1))));
        total = total + n;
        i += 1;
    }
    assert(l.take(l.len() as int) =~= l);
    total
}

/// The sum of the numbers before the sequences, one per line.
pub fn part2(input: &str) -> (r: i64)
    requires
        input_ok(pieces(input@, '\n')),
    ensures
        r == sum_prev(pieces(input@, '\n')),
{
    let cs = chars_of(input);
    let ls = split_chars(cs.as_slice(), '\n');
    let ghost l = pieces(input@, '\n');
    let mut total: i64 = 0;
    let mut i: usize = 0;
    while i < ls.len()
        invariant
            l == pieces(input@, '\n'),
            views(ls@) == l,
            input_ok(l),
            0 <= i <= ls@.len(),
            total == sum_prev(l.take(i as int)),
        decreases ls@.len() - i,
    {
        assert(ls@[i as int]@ == l[i as int]);
        assert(line_ok(l[i as int]));
        let v = numbers_of(ls[i].as_slice());
        let n = prev_of(&v);
        assert(l.take(i + 1).drop_last() =~= l.take(i as int));
        assert(in_i64(sum_prev(l.take(i + 1))));
        total = total + n;
        i += 1;
    }
    assert(l.take(l.len() as int) =~= l);
    total
}

/// Both answers for the sequences in `input`.
pub fn solve_day(input: &str) -> (r: ReturnSize)
    requires
        input_ok(pieces(input@, '\n')),
    ensures
        r == ReturnSize::I64((sum_next(pieces(input@, '\n')) as i64, sum_prev(pieces(input@, '\n')) as i64)),
{
    ReturnSize::I64((part1(input), part2(input)))
}

} // verus!
