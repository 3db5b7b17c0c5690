//! Calibration values: the first and last digit of each line.
use vstd::prelude::*;

use crate::text::{chars_of, digit_value, is_digit, lemma_views_push, lines, lines_of, strings, to_char_lines, views};
use crate::ReturnSize;

verus! {

/// The first digit of `s`, if it has one.
pub open spec fn first_digit(s: Seq<char>) -> Option<char>
    decreases s.len(),
{
    if s.len() == 0 {
        None
    } else if is_digit(s[0]) {
        Some(s[0])
    } else {
        first_digit(s.drop_first())
    }
}

/// The last digit of `s`, if it has one.
pub open spec fn last_digit(s: Seq<char>) -> Option<char>
    decreases s.len(),
{
    if s.len() == 0 {
        None
    } else if is_digit(s.last()) {
        Some(s.last())
    } else {
        last_digit(s.drop_last())
    }
}

/// The two-digit number that the first and last digit of a line make, or zero.
pub open spec fn calibration(s: Seq<char>) -> nat {
    match (first_digit(s), last_digit(s)) {
        (Some(a), Some(b)) => 10 * digit_value(a) + digit_value(b),
        _ => 0,
    }
}

pub open spec fn calibration_sum(ls: Seq<Seq<char>>) -> nat
    decreases ls.len(),
{
    if ls.len() == 0 {
        0
    } else {
        calibration_sum(ls.drop_last()) + calibration(ls.last())
    }
}

proof fn lemma_first_digit(s: Seq<char>, i: int)
    requires
        0 <= i <= s.len(),
        forall|k: int| 0 <= k < i ==> !is_digit(#[trigger] s[k]),
    ensures
        first_digit(s) == first_digit(s.subrange(i, s.len() as int)),
    decreases i,
{
    if i > 0 {
        assert(s.drop_first().subrange(i - 1, s.drop_first().len() as int) =~= s.subrange(i, s.len() as int));
        lemma_first_digit(s.drop_first(), i - 1);
    } else {
        assert(s.subrange(0, s.len() as int) =~= s);
    }
}

proof fn lemma_last_digit(s: Seq<char>, j: int)
    requires
        0 <= j <= s.len(),
        forall|k: int| j <= k < s.len() ==> !is_digit(#[trigger] s[k]),
    ensures
        last_digit(s) == last_digit(s.subrange(0, j)),
    decreases s.len() - j,
{
    if j < s.len() {
        assert(s.drop_last().subrange(0, j) =~= s.subrange(0, j));
        lemma_last_digit(s.drop_last(), j);
    } else {
        assert(s.subrange(0, j) =~= s);
    }
}

/// The first and the last digit of `line`, if it has any.
pub fn extract_digits_from_line(line: &str) -> (r: Option<(char, char)>)
    ensures
        r is Some <==> first_digit(line@) is Some,
        r matches Some((a, b)) ==> first_digit(line@) == Some(a) && last_digit(line@) == Some(b),
{
    let s = chars_of(line);
    digits_of(&s)
}

fn digits_of(s: &Vec<char>) -> (r: Option<(char, char)>)
    ensures
        r is Some <==> first_digit(s@) is Some,
        r matches Some((a, b)) ==> first_digit(s@) == Some(a) && last_digit(s@) == Some(b),
{
    let mut i: usize = 0;
    while i < s.len() && !('0' <= s[i] && s[i] <= '9')
        invariant
            0 <= i <= s@.len(),
            forall|k: int| 0 <= k < i ==> !is_digit(#[trigger] s@[k]),
        decreases s@.len() - i,
    {
        i += 1;
    }
    proof {
        lemma_first_digit(s@, i as int);
    }
    if i == s.len() {
        assert(s@.subrange(i as int, s@.len() as int).len() == 0);
        return None;
    }
    let mut j: usize = s.len();
    while j > i + 1 && !('0' <= s[j - 1] && s[j - 1] <= '9')
        invariant
            i < j <= s@.len(),
            is_digit(s@[i as int]),
            forall|k: int| j <= k < s@.len() ==> !is_digit(#[trigger] s@[k]),
        decreases j,
    {
        j -= 1;
    }
    proof {
        lemma_last_digit(s@, j as int);
        assert(s@.subrange(0, j as int).last() == s@[j - 1]);
        assert(s@.subrange(i as int, s@.len() as int)[0] == s@[i as int]);
    }
    Some((s[i], s[j - 1]))
}

proof fn lemma_first_is_digit(s: Seq<char>)
    ensures
        first_digit(s) matches Some(c) ==> is_digit(c),
    decreases s.len(),
{
    if s.len() > 0 {
        lemma_first_is_digit(s.drop_first());
    }
}

proof fn lemma_last_is_digit(s: Seq<char>)
    ensures
        last_digit(s) matches Some(c) ==> is_digit(c),
    decreases s.len(),
{
    if s.len() > 0 {
        lemma_last_is_digit(s.drop_last());
    }
}

proof fn lemma_sum_prefix(ls: Seq<Seq<char>>, k: int)
    requires
        0 <= k <= ls.len(),
    ensures
        calibration_sum(ls.take(k)) <= calibration_sum(ls),
    decreases ls.len(),
{
    if k < ls.len() {
        assert(ls.drop_last().take(k) =~= ls.take(k));
        lemma_sum_prefix(ls.drop_last(), k);
    } else {
        assert(ls.take(k) =~= ls);
    }
}

fn sum_calibrations(lines: &Vec<Vec<char>>) -> (r: u32)
    requires
        calibration_sum(views(lines@)) <= u32::MAX,
    ensures
        r == calibration_sum(views(lines@)),
{
    let ghost ls = views(lines@);
    let mut total: u32 = 0;
    let mut i: usize = 0;
    while i < lines.len()
        invariant
            ls == views(lines@),
            calibration_sum(ls) <= u32::MAX,
            0 <= i <= lines@.len(),
            total == calibration_sum(ls.take(i as int)),
        decreases lines@.len() - i,
    {
        assert(ls.take(i + 1).drop_last() =~= ls.take(i as int));
        assert(ls[i as int] == lines@[i as int]@);
        proof {
            lemma_sum_prefix(ls, i + 1);
        }
        let v: u32 = match digits_of(&lines[i]) {
            Some((a, b)) => {
                proof {
                    lemma_first_is_digit(ls[i as int]);
                    lemma_last_is_digit(ls[i as int]);
                }
                10 * (a as u32 - '0' as u32) + (b as u32 - '0' as u32)
            },
            None => 0,
        };
        total = total + v;
        i += 1;
    }
    assert(ls.take(i as int) =~= ls);
    total
}

/// The sum of the calibration values of the lines.
pub fn part1(input: &Vec<String>) -> (r: u32)
    requires
        calibration_sum(strings(input@)) <= u32::MAX,
    ensures
        r == calibration_sum(strings(input@)),
{
    let lines = to_char_lines(input);
    sum_calibrations(&lines)
}

/// `s` with each `pat` replaced by `rep`, scanning from the left without overlaps.
pub open spec fn replace(s: Seq<char>, pat: Seq<char>, rep: Seq<char>) -> Seq<char>
    decreases s.len(),
{
    if pat.len() == 0 || s.len() < pat.len() {
        s
    } else if s.take(pat.len() as int) == pat {
        rep + replace(s.skip(pat.len() as int), pat, rep)
    } else {
        seq![s[0]] + replace(s.drop_first(), pat, rep)
    }
}

/// The spelled-out digit `k + 1`.
pub open spec fn word(k: int) -> Seq<char> {
    if k == 0 {
        seq!['o', 'n', 'e']
    } else if k == 1 {
        seq!['t', 'w', 'o']
    } else if k == 2 {
        seq!['t', 'h', 'r', 'e', 'e']
    } else if k == 3 {
        seq!['f', 'o', 'u', 'r']
    } else if k == 4 {
        seq!['f', 'i', 'v', 'e']
    } else if k == 5 {
        seq!['s', 'i', 'x']
    } else if k == 6 {
        seq!['s', 'e', 'v', 'e', 'n']
    } else if k == 7 {
        seq!['e', 'i', 'g', 'h', 't']
    } else {
        seq!['n', 'i', 'n', 'e']
    }
}

/// The word with its digit put in before the last letter, so that a word overlapping it
/// keeps its first and last letters.
pub open spec fn marked(k: int) -> Seq<char> {
    let w = word(k);
    w.drop_last().push(('1' as u32 + k) as char).push(w.last())
}

/// `s` with the first `k` spelled-out digits replaced, in order.
pub open spec fn replace_words(s: Seq<char>, k: int) -> Seq<char>
    decreases k,
{
    if k <= 0 {
        s
    } else {
        replace(replace_words(s, k - 1), word(k - 1), marked(k - 1))
    }
}

pub open spec fn spelled_sum(ls: Seq<Seq<char>>) -> nat {
    calibration_sum(ls.map_values(|l: Seq<char>| replace_words(l, 9)))
}

fn word_exec(k: usize) -> (r: (Vec<char>, Vec<char>))
    requires
        k < 9,
    ensures
        r.0@ == word(k as int),
        r.1@ == marked(k as int),
{
    let w: Vec<char> = if k == 0 {
        vec!['o', 'n', 'e']
    } else if k == 1 {
        vec!['t', 'w', 'o']
    } else if k == 2 {
        vec!['t', 'h', 'r', 'e', 'e']
    } else if k == 3 {
        vec!['f', 'o', 'u', 'r']
    } else if k == 4 {
        vec!['f', 'i', 'v', 'e']
    } else if k == 5 {
        vec!['s', 'i', 'x']
    } else if k == 6 {
        vec!['s', 'e', 'v', 'e', 'n']
    } else if k == 7 {
        vec!['e', 'i', 'g', 'h', 't']
    } else {
        vec!['n', 'i', 'n', 'e']
    };
    assert(w@ =~= word(k as int));
    let n = w.len();
    let mut m: Vec<char> = Vec::new();
    let mut i: usize = 0;
    while i + 1 < n
        invariant
            n == w@.len(),
            n >= 3,
            0 <= i <= n - 1,
            m@ == w@.take(i as int),
        decreases n - i,
    {
        m.push(w[i]);
        i += 1;
        assert(m@ =~= w@.take(i as int));
    }
    let d = char_from_digit((k + 1) as u32);
    m.push(d);
    m.push(w[n - 1]);
    assert(m@ =~= marked(k as int));
    (w, m)
}

fn char_from_digit(d: u32) -> (r: char)
    requires
        1 <= d <= 9,
    ensures
        r == ('0' as u32 + d) as char,
{
    if d == 1 { '1' }
    else if d == 2 { '2' }
    else if d == 3 { '3' }
    else if d == 4 { '4' }
    else if d == 5 { '5' }
    else if d == 6 { '6' }
    else if d == 7 { '7' }
    else if d == 8 { '8' }
    else { '9' }
}

fn starts_with_at(s: &Vec<char>, i: usize, pat: &Vec<char>) -> (r: bool)
    requires
        i <= s@.len(),
    ensures
        r == (s@.len() - i >= pat@.len() && s@.subrange(i as int, i + pat@.len()) == pat@),
{
    if s.len() - i < pat.len() {
        return false;
    }
    let n = s.len();
    let mut k: usize = 0;
    while k < pat.len()
        invariant
            n == s@.len(),
            i + pat@.len() <= n,
            0 <= k <= pat@.len(),
            forall|t: int| 0 <= t < k ==> s@[i + t] == #[trigger] pat@[t],
        decreases pat@.len() - k,
    {
        if s[i + k] != pat[k] {
            assert(s@.subrange(i as int, i + pat@.len())[k as int] != pat@[k as int]);
            return false;
        }
        k += 1;
    }
    assert(s@.subrange(i as int, i + pat@.len()) =~= pat@);
    true
}

/// `s` with each `pat` replaced by `rep`, scanning from the left without overlaps.
pub fn replace_exec(s: &Vec<char>, pat: &Vec<char>, rep: &Vec<char>) -> (r: Vec<char>)
    requires
        pat@.len() > 0,
    ensures
        r@ == replace(s@, pat@, rep@),
{
    let mut r: Vec<char> = Vec::new();
    let mut i: usize = 0;
    assert(s@.skip(0) =~= s@);
    assert(r@ + replace(s@, pat@, rep@) =~= replace(s@, pat@, rep@));
    while i < s.len()
        invariant
            pat@.len() > 0,
            0 <= i <= s@.len(),
            r@ + replace(s@.skip(i as int), pat@, rep@) == replace(s@, pat@, rep@),
        decreases s@.len() - i,
    {
        let ghost t = s@.skip(i as int);
        if starts_with_at(s, i, pat) {
            assert(t.take(pat@.len() as int) =~= s@.subrange(i as int, i + pat@.len()));
            assert(t.skip(pat@.len() as int) =~= s@.skip(i + pat@.len()));
            let ghost r0 = r@;
            let mut k: usize = 0;
            while k < rep.len()
                invariant
                    0 <= k <= rep@.len(),
                    r@ == r0 + rep@.take(k as int),
                decreases rep@.len() - k,
            {
                r.push(rep[k]);
                k += 1;
                assert(r@ =~= r0 + rep@.take(k as int));
            }
            assert(rep@.take(rep@.len() as int) =~= rep@);
            assert(r0 + (rep@ + replace(s@.skip(i + pat@.len()), pat@, rep@)) =~= r@ + replace(s@.skip(i + pat@.len()), pat@, rep@));
            i = i + pat.len();
        } else {
            assert(t.len() >= pat@.len() ==> t.take(pat@.len() as int) =~= s@.subrange(i as int, i + pat@.len()));
            assert(t.drop_first() =~= s@.skip(i + 1));
            let ghost r0 = r@;
            r.push(s[i]);
            proof {
                if t.len() < pat@.len() {
                    assert(replace(t, pat@, rep@) == t);
                    assert(replace(t.drop_first(), pat@, rep@) == t.drop_first()) by {
                        assert(t.drop_first().len() < pat@.len());
                    }
                    assert(t =~= seq![t[0]] + t.drop_first());
                }
            }
            assert(r0 + replace(t, pat@, rep@) =~= r@ + replace(s@.skip(i + 1), pat@, rep@));
            i = i + 1;
        }
    }
    assert(s@.skip(i as int).len() == 0);
    assert(r@ + replace(s@.skip(i as int), pat@, rep@) =~= r@);
    r
}

fn spell_out(ls: &Vec<Vec<char>>) -> (r: Vec<Vec<char>>)
    ensures
        views(r@) == views(ls@).map_values(|l: Seq<char>| replace_words(l, 9)),
{
    let ghost target = views(ls@).map_values(|l: Seq<char>| replace_words(l, 9));
    let mut lines: Vec<Vec<char>> = Vec::new();
    let mut i: usize = 0;
    while i < ls.len()
        invariant
            target == views(ls@).map_values(|l: Seq<char>| replace_words(l, 9)),
            0 <= i <= ls@.len(),
            views(lines@) == target.take(i as int),
        decreases ls@.len() - i,
    {
        let mut l = ls[i].clone();
        assert(l@ =~= views(ls@)[i as int]);
        let mut k: usize = 0;
        while k < 9
            invariant
                0 <= i < ls@.len(),
                0 <= k <= 9,
                l@ == replace_words(views(ls@)[i as int], k as int),
            decreases 9 - k,
        {
            let (w, m) = word_exec(k);
            l = replace_exec(&l, &w, &m);
            k += 1;
        }
        proof {
            lemma_views_push(lines@, l);
        }
        lines.push(l);
        assert(views(lines@) =~= target.take(i + 1));
        i += 1;
    }
    assert(target.take(i as int) =~= target);
    lines
}

/// The sum of the calibration values, where spelled-out digits count as digits too.
pub fn part2(input: &Vec<String>) -> (r: u32)
    requires
        spelled_sum(strings(input@)) <= u32::MAX,
    ensures
        r == spelled_sum(strings(input@)),
{
    let lines = to_char_lines(input);
    let spelled = spell_out(&lines);
    sum_calibrations(&spelled)
}

/// Both answers for the calibration lines in `input`.
pub fn solve_day(input: &str) -> (r: ReturnSize)
    requires
        calibration_sum(lines(input@)) <= u32::MAX,
        spelled_sum(lines(input@)) <= u32::MAX,
    ensures
        r == ReturnSize::U32((calibration_sum(lines(input@)) as u32, spelled_sum(lines(input@)) as u32)),
{
    let cs = chars_of(input);
    let ls = lines_of(cs.as_slice());
    let part_one = sum_calibrations(&ls);
    let spelled = spell_out(&ls);
    let part_two = sum_calibrations(&spelled);
    ReturnSize::U32((part_one, part_two))
}

} // verus!
