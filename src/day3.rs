//! Engine schematic: part numbers next to symbols, and gear ratios.
use vstd::prelude::*;

use crate::text::{chars_of, dec_value, is_digit, lines, lines_of, strings, to_char_lines, views};
use crate::ReturnSize;

verus! {

/// Where the run of digits through index `i` of `row` starts.
pub open spec fn run_start(row: Seq<char>, i: int) -> int
    decreases i,
{
    if i > 0 && is_digit(row[i - 1]) {
        run_start(row, i - 1)
    } else {
        i
    }
}

/// Where the run of digits through index `i` of `row` ends (inclusive).
pub open spec fn run_end(row: Seq<char>, i: int) -> int
    decreases row.len() - i,
{
    if i + 1 < row.len() && is_digit(row[i + 1]) {
        run_end(row, i + 1)
    } else {
        i
    }
}

/// The number whose digits run through index `i` of `row`.
pub open spec fn number_at(row: Seq<char>, i: int) -> nat {
    dec_value(row.subrange(run_start(row, i), run_end(row, i) + 1))
}

pub open spec fn has_digit(row: Seq<char>, idx: int) -> bool {
    0 <= idx < row.len() && is_digit(row[idx])
}

/// The numbers found so far, the gear candidates of the current symbol, and the numbers
/// already taken from the current row of neighbours.
pub type Tally = (Seq<nat>, Seq<nat>, Set<nat>);

/// Takes the number through index `idx` of `row`, next to the symbol `val`, unless this
/// row of neighbours gave it already.
pub open spec fn take_number(row: Seq<char>, idx: int, val: char, t: Tally) -> Tally {
    if has_digit(row, idx) && !t.2.contains(number_at(row, idx)) {
        let n = number_at(row, idx);
        (t.0.push(n), if val == '*' { t.1.push(n) } else { t.1 }, t.2.insert(n))
    } else {
        t
    }
}

/// Takes the numbers of `row` at `j - 1`, `j` and `j + 1`, with a fresh record of what was
/// taken.
pub open spec fn take_three(row: Seq<char>, j: int, val: char, t: Tally) -> Tally {
    let u = (t.0, t.1, Set::<nat>::empty());
    take_number(row, j + 1, val, take_number(row, j, val, take_number(row, j - 1, val, u)))
}

/// The numbers found, and the gear candidates, once the symbol at `(i, j)` is handled.
pub open spec fn around(rows: Seq<Seq<char>>, i: int, j: int, found: Seq<nat>) -> (Seq<nat>, Seq<nat>) {
    let row = rows[i];
    let val = row[j];
    let t0 = (found, Seq::<nat>::empty(), Set::<nat>::empty());
    let t1 = take_number(row, j + 1, val, take_number(row, j - 1, val, t0));
    let t2 = if i > 0 {
        take_three(rows[i - 1], j, val, t1)
    } else {
        t1
    };
    let t3 = if i + 1 < rows.len() {
        take_three(rows[i + 1], j, val, t2)
    } else {
        t2
    };
    (t3.0, t3.1)
}

pub open spec fn is_symbol(c: char) -> bool {
    !is_digit(c) && c != '.'
}

/// The numbers found and the gear ratio sum, after the cell `(i, j)`.
pub open spec fn after_cell(rows: Seq<Seq<char>>, i: int, j: int, st: (Seq<nat>, nat)) -> (Seq<nat>, nat) {
    if is_symbol(rows[i][j]) {
        let (f, g) = around(rows, i, j, st.0);
        (f, st.1 + if g.len() == 2 {
            g[0] * g[1]
        } else {
            0
        })
    } else {
        st
    }
}

/// The state after the first `j` cells of row `i`, from `st`.
pub open spec fn scan_row(rows: Seq<Seq<char>>, i: int, j: int, st: (Seq<nat>, nat)) -> (Seq<nat>, nat)
    decreases j,
{
    if j <= 0 {
        st
    } else {
        after_cell(rows, i, j - 1, scan_row(rows, i, j - 1, st))
    }
}

/// The state after the first `n` rows.
pub open spec fn scan(rows: Seq<Seq<char>>, n: int) -> (Seq<nat>, nat)
    decreases n,
{
    if n <= 0 {
        (Seq::empty(), 0)
    } else {
        scan_row(rows, n - 1, rows[n - 1].len() as int, scan(rows, n - 1))
    }
}

pub open spec fn total(s: Seq<nat>) -> nat
    decreases s.len(),
{
    if s.len() == 0 {
        0
    } else {
        total(s.drop_last()) + s.last()
    }
}

/// Every number next to a symbol fits in 32 bits, and so do both answers.
pub open spec fn schematic_ok(rows: Seq<Seq<char>>) -> bool {
    &&& forall|i: int, j: int, i2: int, j2: int|
        #![trigger has_digit(rows[i2], j2), is_symbol(rows[i][j])]
        0 <= i < rows.len() && 0 <= j < rows[i].len() && is_symbol(rows[i][j]) && i - 1 <= i2 <= i + 1 && j - 1 <= j2 <= j + 1 && 0 <= i2 < rows.len()
            && has_digit(rows[i2], j2) ==> number_at(rows[i2], j2) <= u32::MAX
    &&& total(scan(rows, rows.len() as int).0) <= u32::MAX
    &&& scan(rows, rows.len() as int).1 <= u32::MAX
}

pub open spec fn nats32(v: Seq<u32>) -> Seq<nat> {
    v.map_values(|x: u32| x as nat)
}

pub open spec fn set32(v: Seq<u32>) -> Set<nat> {
    Set::new(|x: nat| exists|k: int| 0 <= k < v.len() && v[k] as nat == x)
}

proof fn lemma_run_bounds(row: Seq<char>, i: int)
    requires
        0 <= i < row.len(),
        is_digit(row[i]),
    ensures
        0 <= run_start(row, i) <= i <= run_end(row, i) < row.len(),
        forall|k: int| run_start(row, i) <= k <= run_end(row, i) ==> is_digit(#[trigger] row[k]),
        run_start(row, i) == 0 || !is_digit(row[run_start(row, i) - 1]),
        run_end(row, i) == row.len() - 1 || !is_digit(row[run_end(row, i) + 1]),
{
    lemma_run_start(row, i);
    lemma_run_end(row, i);
}

proof fn lemma_run_start(row: Seq<char>, i: int)
    requires
        0 <= i < row.len(),
        is_digit(row[i]),
    ensures
        0 <= run_start(row, i) <= i,
        forall|k: int| run_start(row, i) <= k <= i ==> is_digit(#[trigger] row[k]),
        run_start(row, i) == 0 || !is_digit(row[run_start(row, i) - 1]),
    decreases i,
{
    if i > 0 && is_digit(row[i - 1]) {
        lemma_run_start(row, i - 1);
    }
}

proof fn lemma_run_end(row: Seq<char>, i: int)
    requires
        0 <= i < row.len(),
        is_digit(row[i]),
    ensures
        i <= run_end(row, i) < row.len(),
        forall|k: int| i <= k <= run_end(row, i) ==> is_digit(#[trigger] row[k]),
        run_end(row, i) == row.len() - 1 || !is_digit(row[run_end(row, i) + 1]),
    decreases row.len() - i,
{
    if i + 1 < row.len() && is_digit(row[i + 1]) {
        lemma_run_end(row, i + 1);
    }
}

/// The number whose digits run through index `idx` of `s`, if there is a digit there.
pub fn extract_number(s: &Vec<char>, idx: usize) -> (r: Option<u32>)
    requires
        has_digit(s@, idx as int) ==> number_at(s@, idx as int) <= u32::MAX,
    ensures
        r is Some <==> has_digit(s@, idx as int),
        r matches Some(n) ==> n == number_at(s@, idx as int),
{
    if idx >= s.len() || !('0' <= s[idx] && s[idx] <= '9') {
        return None;
    }
    let mut start = idx;
    while start > 0 && '0' <= s[start - 1] && s[start - 1] <= '9'
        invariant
            0 <= start <= idx < s@.len(),
            run_start(s@, idx as int) == run_start(s@, start as int),
        decreases start,
    {
        start -= 1;
    }
    let mut end = idx;
    while end < s.len() - 1 && '0' <= s[end + 1] && s[end + 1] <= '9'
        invariant
            idx <= end < s@.len(),
            run_end(s@, idx as int) == run_end(s@, end as int),
        decreases s@.len() - end,
    {
        end += 1;
    }
    proof {
        lemma_run_bounds(s@, idx as int);
    }
    let digits = crate::text::slice_range(s.as_slice(), start, end + 1);
    assert(digits@ == s@.subrange(run_start(s@, idx as int), run_end(s@, idx as int) + 1));
    assert(crate::text::all_digits(digits@)) by {
        assert forall|k: int| 0 <= k < digits@.len() implies is_digit(#[trigger] digits@[k]) by {
            assert(digits@[k] == s@[start + k]);
        }
    }
    let v = crate::text::parse_u128(digits.as_slice());
    Some(v.unwrap() as u32)
}

fn contains32(v: &Vec<u32>, x: u32) -> (r: bool)
    ensures
        r == set32(v@).contains(x as nat),
{
    let mut i: usize = 0;
    while i < v.len()
        invariant
            0 <= i <= v@.len(),
            forall|k: int| 0 <= k < i ==> v@[k] != x,
        decreases v@.len() - i,
    {
        if v[i] == x {
            return true;
        }
        i += 1;
    }
    false
}

/// Takes the number through index `idx` of `row` for the symbol `val`, unless `cset`
/// already holds it.
pub fn extract_and_push(row: &Vec<char>, idx: usize, val: char, found: &mut Vec<u32>, gears: &mut Vec<u32>, cset: &mut Vec<u32>)
    requires
        has_digit(row@, idx as int) ==> number_at(row@, idx as int) <= u32::MAX,
    ensures
        (nats32(final(found)@), nats32(final(gears)@), set32(final(cset)@)) == take_number(row@, idx as int, val, (nats32(old(found)@), nats32(old(gears)@), set32(old(cset)@))),
{
    let ghost f0 = found@;
    let ghost g0 = gears@;
    let ghost c0 = cset@;
    if let Some(n) = extract_number(row, idx) {
        if !contains32(cset, n) {
            found.push(n);
            cset.push(n);
            assert(nats32(found@) =~= nats32(f0).push(n as nat));
            assert(set32(cset@) =~= set32(c0).insert(n as nat)) by {
                assert forall|x: nat| #[trigger] set32(cset@).contains(x) <==> set32(c0).insert(n as nat).contains(x) by {
                    if set32(cset@).contains(x) {
                        let k = choose|k: int| 0 <= k < cset@.len() && cset@[k] as nat == x;
                        if k < c0.len() {
                            assert(c0[k] == cset@[k]);
                        }
                    }
                    if set32(c0).contains(x) {
                        let k = choose|k: int| 0 <= k < c0.len() && c0[k] as nat == x;
                        assert(cset@[k] == c0[k]);
                    }
                    if x == n as nat {
                        assert(cset@[c0.len() as int] == n);
                    }
                }
            }
            if val == '*' {
                gears.push(n);
                assert(nats32(gears@) =~= nats32(g0).push(n as nat));
            }
        }
    }
}

proof fn lemma_scan_row_mono(rows: Seq<Seq<char>>, i: int, j1: int, j2: int, st: (Seq<nat>, nat))
    requires
        0 <= j1 <= j2,
    ensures
        st.1 <= scan_row(rows, i, j1, st).1 <= scan_row(rows, i, j2, st).1,
    decreases j2,
{
    if j2 > j1 {
        lemma_scan_row_mono(rows, i, j1, j2 - 1, st);
    } else if j1 > 0 {
        lemma_scan_row_mono(rows, i, j1 - 1, j1 - 1, st);
    }
}

proof fn lemma_scan_mono(rows: Seq<Seq<char>>, n1: int, n2: int)
    requires
        0 <= n1 <= n2 <= rows.len(),
    ensures
        scan(rows, n1).1 <= scan(rows, n2).1,
    decreases n2,
{
    if n2 > n1 {
        lemma_scan_mono(rows, n1, n2 - 1);
        lemma_scan_row_mono(rows, n2 - 1, 0, rows[n2 - 1].len() as int, scan(rows, n2 - 1));
    }
}

proof fn lemma_total_prefix(s: Seq<nat>, k: int)
    requires
        0 <= k <= s.len(),
    ensures
        total(s.take(k)) <= total(s),
    decreases s.len(),
{
    if k < s.len() {
        assert(s.drop_last().take(k) =~= s.take(k));
        lemma_total_prefix(s.drop_last(), k);
    } else {
        assert(s.take(k) =~= s);
    }
}

fn sum32(v: &Vec<u32>) -> (r: u32)
    requires
        total(nats32(v@)) <= u32::MAX,
    ensures
        r == total(nats32(v@)),
{
    let ghost t = nats32(v@);
    let mut acc: u32 = 0;
    let mut i: usize = 0;
    while i < v.len()
        invariant
            t == nats32(v@),
            total(t) <= u32::MAX,
            0 <= i <= v@.len(),
            acc == total(t.take(i as int)),
        decreases v@.len() - i,
    {
        assert(t.take(i + 1).drop_last() =~= t.take(i as int));
        proof {
            lemma_total_prefix(t, i + 1);
        }
        acc = acc + v[i];
        i += 1;
    }
    assert(t.take(i as int) =~= t);
    acc
}

fn scan_exec(rows: &Vec<Vec<char>>) -> (r: (u32, u32))
    requires
        schematic_ok(views(rows@)),
    ensures
        r.0 == total(scan(views(rows@), rows@.len() as int).0),
        r.1 == scan(views(rows@), rows@.len() as int).1,
{
    let ghost rs = views(rows@);
    let n = rows.len();
    let mut found: Vec<u32> = Vec::new();
    let mut ratio: u32 = 0;
    let mut i: usize = 0;
    assert(nats32(found@) =~= Seq::<nat>::empty());
    while i < n
        invariant
            rs == views(rows@),
            n == rows@.len(),
            schematic_ok(rs),
            0 <= i <= n,
            (nats32(found@), ratio as nat) == scan(rs, i as int),
        decreases n - i,
    {
        let row = &rows[i];
        assert(row@ == rs[i as int]);
        let ghost start = scan(rs, i as int);
        let mut j: usize = 0;
        while j < row.len()
            invariant
                rs == views(rows@),
                n == rows@.len(),
                schematic_ok(rs),
                0 <= i < n,
                row@ == rs[i as int],
                start == scan(rs, i as int),
                0 <= j <= row@.len(),
                (nats32(found@), ratio as nat) == scan_row(rs, i as int, j as int, start),
            decreases row@.len() - j,
        {
            let val = row[j];
            if !('0' <= val && val <= '9') && val != '.' {
                assert(is_symbol(rs[i as int][j as int]));
                let ghost st = scan_row(rs, i as int, j as int, start);
                let mut gears: Vec<u32> = Vec::new();
                let mut cset: Vec<u32> = Vec::new();
                assert(nats32(gears@) =~= Seq::<nat>::empty());
                assert(set32(cset@) =~= Set::<nat>::empty());
                let ghost t0 = (nats32(found@), nats32(gears@), set32(cset@));
                if j > 0 {
                    assert(has_digit(rs[i as int], j - 1) ==> number_at(rs[i as int], j - 1) <= u32::MAX);
                    extract_and_push(row, j - 1, val, &mut found, &mut gears, &mut cset);
                }
                assert(has_digit(rs[i as int], j + 1) ==> number_at(rs[i as int], j + 1) <= u32::MAX);
                extract_and_push(row, j + 1, val, &mut found, &mut gears, &mut cset);
                let ghost t1 = (nats32(found@), nats32(gears@), set32(cset@));
                assert(t1 == take_number(rs[i as int], j + 1, val, take_number(rs[i as int], j - 1, val, t0)));
                if i > 0 {
                    let prev = &rows[i - 1];
                    assert(prev@ == rs[i - 1]);
                    let mut cset2: Vec<u32> = Vec::new();
                    assert(set32(cset2@) =~= Set::<nat>::empty());
                    if j > 0 {
                        assert(has_digit(rs[i - 1], j - 1) ==> number_at(rs[i - 1], j - 1) <= u32::MAX);
                        extract_and_push(prev, j - 1, val, &mut found, &mut gears, &mut cset2);
                    }
                    assert(has_digit(rs[i - 1], j as int) ==> number_at(rs[i - 1], j as int) <= u32::MAX);
                    extract_and_push(prev, j, val, &mut found, &mut gears, &mut cset2);
                    assert(has_digit(rs[i - 1], j + 1) ==> number_at(rs[i - 1], j + 1) <= u32::MAX);
                    extract_and_push(prev, j + 1, val, &mut found, &mut gears, &mut cset2);
                }
                let ghost t2 = if i > 0 {
                    take_three(rs[i - 1], j as int, val, t1)
                } else {
                    t1
                };
                assert(nats32(found@) == t2.0 && nats32(gears@) == t2.1);
                if i + 1 < n {
                    let next = &rows[i + 1];
                    assert(next@ == rs[i + 1]);
                    let mut cset3: Vec<u32> = Vec::new();
                    assert(set32(cset3@) =~= Set::<nat>::empty());
                    if j > 0 {
                        assert(has_digit(rs[i + 1], j - 1) ==> number_at(rs[i + 1], j - 1) <= u32::MAX);
                        extract_and_push(next, j - 1, val, &mut found, &mut gears, &mut cset3);
                    }
                    assert(has_digit(rs[i + 1], j as int) ==> number_at(rs[i + 1], j as int) <= u32::MAX);
                    extract_and_push(next, j, val, &mut found, &mut gears, &mut cset3);
                    assert(has_digit(rs[i + 1], j + 1) ==> number_at(rs[i + 1], j + 1) <= u32::MAX);
                    extract_and_push(next, j + 1, val, &mut found, &mut gears, &mut cset3);
                }
                assert((nats32(found@), nats32(gears@)) == around(rs, i as int, j as int, st.0));
                proof {
                    lemma_scan_row_mono(rs, i as int, j + 1, rs[i as int].len() as int, start);
                    lemma_scan_mono(rs, i + 1, rs.len() as int);
                }
                if gears.len() == 2 {
                    assert(nats32(gears@)[0] == gears@[0] && nats32(gears@)[1] == gears@[1]);
                    assert(ratio + gears@[0] * gears@[1] <= u32::MAX);
                    ratio = ratio + gears[0] * gears[1];
                }
            }
            j += 1;
        }
        i += 1;
    }
    let part_one = sum32(&found);
    (part_one, ratio)
}

/// The sum of the numbers next to a symbol, and the sum of the gear ratios.
pub fn part1_2(input: Vec<String>) -> (r: (u32, u32))
    requires
        schematic_ok(strings(input@)),
    ensures
        r.0 == total(scan(strings(input@), input@.len() as int).0),
        r.1 == scan(strings(input@), input@.len() as int).1,
{
    let rows = to_char_lines(&input);
    scan_exec(&rows)
}

/// Both answers for the schematic in `input`.
pub fn solve_day(input: &str) -> (r: ReturnSize)
    requires
        schematic_ok(lines(input@)),
    ensures
        r == ReturnSize::U32(
            (
                total(scan(lines(input@), lines(input@).len() as int).0) as u32,
                scan(lines(input@), lines(input@).len() as int).1 as u32,
            ),
        ),
{
    let cs = chars_of(input);
    let rows = lines_of(cs.as_slice());
    ReturnSize::U32(scan_exec(&rows))
}

} // verus!
