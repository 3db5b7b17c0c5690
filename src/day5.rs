//! Seed ranges carried through a chain of range-shifting maps.
use vstd::prelude::*;

use crate::text::{chars_of, in_i64, lines, parse_i64, signed_value, split_pat, split_seq, views, words, words_of};
use crate::ReturnSize;

verus! {

pub type Rule = (i64, i64, i64);

pub open spec fn rule_int(t: Rule) -> (int, int, int) {
    (t.0 as int, t.1 as int, t.2 as int)
}

pub open spec fn rules(m: Seq<Rule>) -> Seq<(int, int, int)> {
    m.map_values(|t: Rule| rule_int(t))
}

pub open spec fn spans(v: Seq<(i64, i64)>) -> Seq<(int, int)> {
    v.map_values(|p: (i64, i64)| (p.0 as int, p.1 as int))
}

/// The rule written on a line, `<destination> <source> <length>`, if its first three words
/// are integers of 64 bits.
pub open spec fn rule_of(line: Seq<char>) -> Option<(int, int, int)> {
    let w = words(line);
    if w.len() >= 3 && signed_value(w[0]) is Some && in_i64(signed_value(w[0])->0) && signed_value(w[1]) is Some
        && in_i64(signed_value(w[1])->0) && signed_value(w[2]) is Some && in_i64(signed_value(w[2])->0) {
        Some((signed_value(w[0])->0, signed_value(w[1])->0, signed_value(w[2])->0))
    } else {
        None
    }
}

/// The rules of the first `n` lines, skipping lines that hold none.
pub open spec fn rules_upto(ls: Seq<Seq<char>>, n: int) -> Seq<(int, int, int)>
    decreases n,
{
    if n <= 0 {
        Seq::empty()
    } else {
        match rule_of(ls[n - 1]) {
            Some(t) => rules_upto(ls, n - 1).push(t),
            None => rules_upto(ls, n - 1),
        }
    }
}

/// The rules of a map section: every line after its title that holds one.
pub open spec fn section_rules(section: Seq<char>) -> Seq<(int, int, int)> {
    let ls = lines(section);
    if ls.len() == 0 {
        Seq::empty()
    } else {
        rules_upto(ls.drop_first(), ls.len() - 1)
    }
}

/// Reads the rules of a map section, skipping its title line.
pub fn parse_map(section: &Vec<char>) -> (r: Vec<Rule>)
    ensures
        rules(r@) == section_rules(section@),
{
    let ls = crate::text::lines_of(section.as_slice());
    let ghost l = lines(section@);
    let mut r: Vec<Rule> = Vec::new();
    if ls.len() == 0 {
        assert(rules(r@) =~= Seq::<(int, int, int)>::empty());
        return r;
    }
    let ghost rest = l.drop_first();
    let mut i: usize = 1;
    while i < ls.len()
        invariant
            l == lines(section@),
            views(ls@) == l,
            rest == l.drop_first(),
            1 <= i <= ls@.len(),
            rules(r@) == rules_upto(rest, i - 1),
        decreases ls@.len() - i,
    {
        assert(ls@[i as int]@ == rest[i - 1]);
        let ws = words_of(ls[i].as_slice());
        let ghost w = words(rest[i - 1]);
        if ws.len() >= 3 {
            assert(ws@[0]@ == w[0] && ws@[1]@ == w[1] && ws@[2]@ == w[2]);
            let a = parse_i64(ws[0].as_slice());
            let b = parse_i64(ws[1].as_slice());
            let c = parse_i64(ws[2].as_slice());
            match (a, b, c) {
                (Some(a), Some(b), Some(c)) => {
                    let ghost r0 = r@;
                    r.push((a, b, c));
                    assert(rules(r@) =~= rules(r0).push((a as int, b as int, c as int)));
                },
                _ => {},
            }
        }
        i += 1;
    }
    r
}

/// The parts of the rules that meet `[lo, hi]`: each clipped to it, with its shift.
#[verifier::opaque]
pub open spec fn overlaps(m: Seq<(int, int, int)>, lo: int, hi: int, n: int) -> Seq<(int, int, int)>
    decreases n,
{
    if n <= 0 {
        Seq::empty()
    } else {
        let prev = overlaps(m, lo, hi, n - 1);
        let (dst, src, r) = m[n - 1];
        let end = src + r - 1;
        if !(end < lo || src > hi) {
            prev.push((if src > lo { src } else { lo }, if end < hi { end } else { hi }, dst - src))
        } else {
            prev
        }
    }
}

/// The shifted parts of the first `k` overlaps, each followed by the gap up to the next
/// one where there is one.
pub open spec fn shifted(ans: Seq<(int, int, int)>, k: int) -> Seq<(int, int)>
    decreases k,
{
    if k <= 0 {
        Seq::empty()
    } else {
        let i = k - 1;
        let (l, r, d) = ans[i];
        let s = shifted(ans, i).push((l + d, r + d));
        if i < ans.len() - 1 && ans[i + 1].0 > r + 1 {
            s.push((r + 1, ans[i + 1].0 - 1))
        } else {
            s
        }
    }
}

/// What the map `m` makes of the range `[lo, hi]`: the shifted overlaps, the gaps between
/// them, and the uncovered ends unshifted.
#[verifier::opaque]
pub open spec fn remap_spec(lo: int, hi: int, m: Seq<(int, int, int)>) -> Seq<(int, int)> {
    let ans = overlaps(m, lo, hi, m.len() as int);
    let body = shifted(ans, ans.len() as int);
    if ans.len() == 0 {
        body.push((lo, hi))
    } else {
        let b1 = if ans[0].0 != lo {
            body.push((lo, ans[0].0 - 1))
        } else {
            body
        };
        if ans.last().1 != hi {
            b1.push((ans.last().1 + 1, hi))
        } else {
            b1
        }
    }
}

/// Every sum and difference that remapping `[lo, hi]` through `m` takes fits in 64 bits.
pub open spec fn remap_fits(lo: int, hi: int, m: Seq<(int, int, int)>) -> bool {
    let ans = overlaps(m, lo, hi, m.len() as int);
    &&& forall|i: int| 0 <= i < m.len() ==> in_i64(#[trigger] m[i].1 + m[i].2) && in_i64(m[i].1 + m[i].2 - 1) && in_i64(m[i].0 - m[i].1)
    &&& forall|i: int| 0 <= i < ans.len() ==> in_i64(#[trigger] ans[i].0 + ans[i].2) && in_i64(ans[i].1 + ans[i].2) && in_i64(ans[i].1 + 1) && in_i64(ans[i].0 - 1)
}

/// The source range of rule `t` holds `x`.
pub open spec fn in_rule(t: (int, int, int), x: int) -> bool {
    t.1 <= x <= t.1 + t.2 - 1
}

/// The map `m` sends `x` to `y`: shifted by the rule whose source range holds it, or
/// unchanged where none does.
pub open spec fn sends(m: Seq<(int, int, int)>, x: int, y: int) -> bool {
    ||| exists|k: int| 0 <= k < m.len() && #[trigger] in_rule(m[k], x) && y == x + m[k].0 - m[k].1
    ||| (forall|k: int| 0 <= k < m.len() ==> !#[trigger] in_rule(m[k], x)) && y == x
}

/// The clipped rule parts come in increasing order, apart from one another.
#[verifier::opaque]
pub open spec fn ordered(ans: Seq<(int, int, int)>) -> bool {
    forall|i: int, j: int| #![trigger ans[i], ans[j]] 0 <= i < j < ans.len() ==> ans[i].1 < ans[j].0
}

/// Some range of `rs` holds `y`.
pub open spec fn covers(rs: Seq<(int, int)>, y: int) -> bool {
    exists|t: int| 0 <= t < rs.len() && #[trigger] rs[t].0 <= y && y <= rs[t].1
}

/// Rule `k` of `m` clipped to `[lo, hi]`, with its shift.
pub open spec fn clip(m: Seq<(int, int, int)>, lo: int, hi: int, k: int) -> (int, int, int) {
    let (dst, src, r) = m[k];
    let end = src + r - 1;
    (if src > lo { src } else { lo }, if end < hi { end } else { hi }, dst - src)
}

pub open spec fn meets(m: Seq<(int, int, int)>, lo: int, hi: int, k: int) -> bool {
    !(m[k].1 + m[k].2 - 1 < lo || m[k].1 > hi)
}

proof fn lemma_overlaps_from(m: Seq<(int, int, int)>, lo: int, hi: int, n: int)
    requires
        0 <= n <= m.len(),
    ensures
        forall|i: int| 0 <= i < overlaps(m, lo, hi, n).len() ==> exists|k: int| 0 <= k < n && meets(m, lo, hi, k) && #[trigger] overlaps(m, lo, hi, n)[i] == clip(m, lo, hi, k),
        forall|k: int| 0 <= k < n && meets(m, lo, hi, k) ==> exists|i: int| 0 <= i < overlaps(m, lo, hi, n).len() && #[trigger] overlaps(m, lo, hi, n)[i] == clip(m, lo, hi, k),
    decreases n,
{
    reveal(overlaps);
    if n > 0 {
        lemma_overlaps_from(m, lo, hi, n - 1);
        let prev = overlaps(m, lo, hi, n - 1);
        let cur = overlaps(m, lo, hi, n);
        assert forall|i: int| 0 <= i < cur.len() implies exists|k: int| 0 <= k < n && meets(m, lo, hi, k) && #[trigger] cur[i] == clip(m, lo, hi, k) by {
            if i < prev.len() {
                assert(cur[i] == prev[i]);
                let k = choose|k: int| 0 <= k < n - 1 && meets(m, lo, hi, k) && #[trigger] prev[i] == clip(m, lo, hi, k);
            } else {
                assert(cur[i] == clip(m, lo, hi, n - 1));
            }
        }
        assert forall|k: int| 0 <= k < n && meets(m, lo, hi, k) implies exists|i: int| 0 <= i < cur.len() && #[trigger] cur[i] == clip(m, lo, hi, k) by {
            if k < n - 1 {
                let i = choose|i: int| 0 <= i < prev.len() && #[trigger] prev[i] == clip(m, lo, hi, k);
                assert(cur[i] == prev[i]);
            } else {
                assert(cur[prev.len() as int] == clip(m, lo, hi, k));
            }
        }
    }
}

proof fn lemma_shifted_has(ans: Seq<(int, int, int)>, k: int, i: int)
    requires
        0 <= i < k <= ans.len(),
    ensures
        shifted(ans, k).contains((ans[i].0 + ans[i].2, ans[i].1 + ans[i].2)),
        i < ans.len() - 1 && ans[i + 1].0 > ans[i].1 + 1 ==> shifted(ans, k).contains((ans[i].1 + 1, ans[i + 1].0 - 1)),
    decreases k,
{
    reveal(shifted);
    let s = shifted(ans, k);
    let i0 = k - 1;
    let base = shifted(ans, i0).push((ans[i0].0 + ans[i0].2, ans[i0].1 + ans[i0].2));
    if i < i0 {
        lemma_shifted_has(ans, i0, i);
        let a = choose|t: int| 0 <= t < shifted(ans, i0).len() && shifted(ans, i0)[t] == (ans[i].0 + ans[i].2, ans[i].1 + ans[i].2);
        assert(s[a] == shifted(ans, i0)[a]);
        if i < ans.len() - 1 && ans[i + 1].0 > ans[i].1 + 1 {
            let b = choose|t: int| 0 <= t < shifted(ans, i0).len() && shifted(ans, i0)[t] == (ans[i].1 + 1, ans[i + 1].0 - 1);
            assert(s[b] == shifted(ans, i0)[b]);
        }
    } else {
        assert(s[shifted(ans, i0).len() as int] == (ans[i].0 + ans[i].2, ans[i].1 + ans[i].2));
        if i < ans.len() - 1 && ans[i + 1].0 > ans[i].1 + 1 {
            assert(s[base.len() as int] == (ans[i].1 + 1, ans[i + 1].0 - 1));
        }
    }
}

proof fn lemma_shifted_only(ans: Seq<(int, int, int)>, k: int, t: int)
    requires
        0 <= k <= ans.len(),
        0 <= t < shifted(ans, k).len(),
    ensures
        exists|i: int| 0 <= i < k && (#[trigger] shifted(ans, k)[t] == (ans[i].0 + ans[i].2, ans[i].1 + ans[i].2) || (i < ans.len() - 1 && ans[i + 1].0 > ans[i].1 + 1 && shifted(ans, k)[t] == (ans[i].1 + 1, ans[i + 1].0 - 1))),
    decreases k,
{
    reveal(shifted);
    let i0 = k - 1;
    let prev = shifted(ans, i0);
    if t < prev.len() {
        lemma_shifted_only(ans, i0, t);
        let i = choose|i: int| 0 <= i < i0 && (#[trigger] prev[t] == (ans[i].0 + ans[i].2, ans[i].1 + ans[i].2) || (i < ans.len() - 1 && ans[i + 1].0 > ans[i].1 + 1 && prev[t] == (ans[i].1 + 1, ans[i + 1].0 - 1)));
        assert(shifted(ans, k)[t] == prev[t]);
    } else {
        assert(0 <= i0 < k);
    }
}

proof fn lemma_bracket(ans: Seq<(int, int, int)>, x: int, i: int)
    requires
        ordered(ans),
        0 <= i < ans.len() - 1,
        ans[i].1 < x,
        x <= ans.last().1,
        forall|j: int| 0 <= j < ans.len() ==> !(ans[j].0 <= x && x <= #[trigger] ans[j].1),
        forall|j: int| 0 <= j < ans.len() ==> #[trigger] ans[j].0 <= ans[j].1,
    ensures
        exists|j: int| i <= j < ans.len() - 1 && #[trigger] ans[j].1 < x && x < ans[j + 1].0,
    decreases ans.len() - i,
{
    reveal(ordered);
    if x >= ans[i + 1].0 {
        assert(x > ans[i + 1].1);
        lemma_bracket(ans, x, i + 1);
    } else {
        assert(ans[i].1 < x && x < ans[i + 1].0);
    }
}

proof fn lemma_parts_inside(lo: int, hi: int, m: Seq<(int, int, int)>)
    requires
        lo <= hi,
        forall|k: int| 0 <= k < m.len() ==> #[trigger] m[k].2 > 0,
    ensures
        forall|j: int| 0 <= j < overlaps(m, lo, hi, m.len() as int).len() ==> lo <= #[trigger] overlaps(m, lo, hi, m.len() as int)[j].0 <= overlaps(m, lo, hi, m.len() as int)[j].1 <= hi,
{
    let ans = overlaps(m, lo, hi, m.len() as int);
    lemma_overlaps_from(m, lo, hi, m.len() as int);
    assert forall|j: int| 0 <= j < ans.len() implies lo <= #[trigger] ans[j].0 <= ans[j].1 <= hi by {
        let k = choose|k: int| 0 <= k < m.len() && meets(m, lo, hi, k) && #[trigger] ans[j] == clip(m, lo, hi, k);
        assert(m[k].2 > 0);
    }
}

/// The ranges after the shifted parts: the whole range where no rule meets it, else the
/// uncovered start and end.
proof fn lemma_ends(lo: int, hi: int, m: Seq<(int, int, int)>)
    ensures
        ({
            let ans = overlaps(m, lo, hi, m.len() as int);
            let n = shifted(ans, ans.len() as int).len();
            let out = remap_spec(lo, hi, m);
            &&& ans.len() == 0 ==> out.len() == n + 1 && out[n as int] == (lo, hi)
            &&& ans.len() > 0 && ans[0].0 != lo ==> out.len() > n && out[n as int] == (lo, ans[0].0 - 1)
            &&& ans.len() > 0 && ans.last().1 != hi ==> out.len() > n && out[out.len() - 1] == (ans.last().1 + 1, hi)
            &&& forall|u: int| n <= u < out.len() ==> ans.len() == 0 || (ans[0].0 != lo && #[trigger] out[u] == (lo, ans[0].0 - 1)) || (ans.last().1 != hi && out[u] == (ans.last().1 + 1, hi))
        }),
{
    reveal(remap_spec);
}

proof fn lemma_body_kept(lo: int, hi: int, m: Seq<(int, int, int)>)
    ensures
        shifted(overlaps(m, lo, hi, m.len() as int), overlaps(m, lo, hi, m.len() as int).len() as int).len() <= remap_spec(lo, hi, m).len(),
        forall|t: int| 0 <= t < shifted(overlaps(m, lo, hi, m.len() as int), overlaps(m, lo, hi, m.len() as int).len() as int).len() ==> remap_spec(lo, hi, m)[t] == #[trigger] shifted(overlaps(m, lo, hi, m.len() as int), overlaps(m, lo, hi, m.len() as int).len() as int)[t],
{
    reveal(remap_spec);
    let ans = overlaps(m, lo, hi, m.len() as int);
    let body = shifted(ans, ans.len() as int);
    let out = remap_spec(lo, hi, m);
    assert forall|t: int| 0 <= t < body.len() implies out[t] == #[trigger] body[t] by {
        if ans.len() > 0 {
            let b1 = if ans[0].0 != lo { body.push((lo, ans[0].0 - 1)) } else { body };
            assert(b1[t] == body[t]);
        }
    }
}

proof fn lemma_covers_body(lo: int, hi: int, m: Seq<(int, int, int)>, e: (int, int), y: int)
    requires
        shifted(overlaps(m, lo, hi, m.len() as int), overlaps(m, lo, hi, m.len() as int).len() as int).contains(e),
        e.0 <= y <= e.1,
    ensures
        covers(remap_spec(lo, hi, m), y),
{
    let ans = overlaps(m, lo, hi, m.len() as int);
    let body = shifted(ans, ans.len() as int);
    let out = remap_spec(lo, hi, m);
    lemma_body_kept(lo, hi, m);
    let t = choose|t: int| 0 <= t < body.len() && body[t] == e;
    assert(out[t] == body[t]);
    assert(out[t].0 <= y && y <= out[t].1);
}

/// A point of `[lo, hi]` is sent to a point that some resulting range holds.
#[verifier::spinoff_prover]
#[verifier::rlimit(100)]
proof fn lemma_remap_forward(lo: int, hi: int, m: Seq<(int, int, int)>, x: int, y: int)
    requires
        forall|k: int| 0 <= k < m.len() ==> #[trigger] m[k].2 > 0,
        ordered(overlaps(m, lo, hi, m.len() as int)),
        lo <= x <= hi,
        sends(m, x, y),
    ensures
        covers(remap_spec(lo, hi, m), y),
{
    let ans = overlaps(m, lo, hi, m.len() as int);
    let out = remap_spec(lo, hi, m);
    lemma_overlaps_from(m, lo, hi, m.len() as int);
    lemma_parts_inside(lo, hi, m);
    if exists|k: int| 0 <= k < m.len() && #[trigger] in_rule(m[k], x) && y == x + m[k].0 - m[k].1 {
        let k = choose|k: int| 0 <= k < m.len() && #[trigger] in_rule(m[k], x) && y == x + m[k].0 - m[k].1;
        assert(meets(m, lo, hi, k));
        let i = choose|i: int| 0 <= i < ans.len() && #[trigger] ans[i] == clip(m, lo, hi, k);
        lemma_shifted_has(ans, ans.len() as int, i);
        lemma_covers_body(lo, hi, m, (ans[i].0 + ans[i].2, ans[i].1 + ans[i].2), y);
    } else {
        assert(y == x);
        assert forall|j: int| 0 <= j < ans.len() implies !(ans[j].0 <= x && x <= #[trigger] ans[j].1) by {
            let k = choose|k: int| 0 <= k < m.len() && meets(m, lo, hi, k) && #[trigger] ans[j] == clip(m, lo, hi, k);
            if ans[j].0 <= x && x <= ans[j].1 {
                assert(in_rule(m[k], x));
            }
        }
        lemma_ends(lo, hi, m);
        let n = shifted(ans, ans.len() as int).len() as int;
        if ans.len() == 0 {
            assert(out[n].0 <= y && y <= out[n].1);
        } else if x < ans[0].0 {
            assert(out[n].0 <= y && y <= out[n].1);
        } else if x > ans.last().1 {
            assert(out[out.len() - 1].0 <= y && y <= out[out.len() - 1].1);
        } else {
            assert(x > ans[0].1);
            assert(ans.len() > 1);
            lemma_bracket(ans, x, 0);
            let j = choose|j: int| 0 <= j < ans.len() - 1 && #[trigger] ans[j].1 < x && x < ans[j + 1].0;
            lemma_shifted_has(ans, ans.len() as int, j);
            lemma_covers_body(lo, hi, m, (ans[j].1 + 1, ans[j + 1].0 - 1), y);
        }
    }
}

/// A point that lies before, between or after the clipped parts is held by no rule.
#[verifier::spinoff_prover]
#[verifier::rlimit(100)]
proof fn lemma_outside_parts(lo: int, hi: int, m: Seq<(int, int, int)>, x: int, i: int)
    requires
        ordered(overlaps(m, lo, hi, m.len() as int)),
        forall|k: int| 0 <= k < m.len() ==> #[trigger] m[k].2 > 0,
        lo <= x <= hi,
        -1 <= i < overlaps(m, lo, hi, m.len() as int).len(),
        i >= 0 ==> overlaps(m, lo, hi, m.len() as int)[i].1 < x,
        i + 1 < overlaps(m, lo, hi, m.len() as int).len() ==> x < overlaps(m, lo, hi, m.len() as int)[i + 1].0,
    ensures
        forall|k: int| 0 <= k < m.len() ==> !#[trigger] in_rule(m[k], x),
{
    reveal(ordered);
    let ans = overlaps(m, lo, hi, m.len() as int);
    lemma_overlaps_from(m, lo, hi, m.len() as int);
    lemma_parts_inside(lo, hi, m);
    assert forall|k: int| 0 <= k < m.len() implies !#[trigger] in_rule(m[k], x) by {
        if in_rule(m[k], x) {
            assert(meets(m, lo, hi, k));
            let j = choose|j: int| 0 <= j < ans.len() && #[trigger] ans[j] == clip(m, lo, hi, k);
            assert(ans[j].0 <= x && x <= ans[j].1);
            if j < i {
                assert(ans[j].1 < ans[i].0);
            } else if j > i + 1 {
                assert(ans[i + 1].1 < ans[j].0);
            }
        }
    }
}

/// A point that some resulting range holds is where some point of `[lo, hi]` is sent.
#[verifier::spinoff_prover]
#[verifier::rlimit(100)]
proof fn lemma_remap_backward(lo: int, hi: int, m: Seq<(int, int, int)>, y: int)
    requires
        lo <= hi,
        forall|k: int| 0 <= k < m.len() ==> #[trigger] m[k].2 > 0,
        ordered(overlaps(m, lo, hi, m.len() as int)),
        covers(remap_spec(lo, hi, m), y),
    ensures
        exists|x: int| lo <= x <= hi && sends(m, x, y),
{
    let ans = overlaps(m, lo, hi, m.len() as int);
    let body = shifted(ans, ans.len() as int);
    let out = remap_spec(lo, hi, m);
    lemma_overlaps_from(m, lo, hi, m.len() as int);
    lemma_parts_inside(lo, hi, m);
    lemma_body_kept(lo, hi, m);
    let u = choose|u: int| 0 <= u < out.len() && #[trigger] out[u].0 <= y && y <= out[u].1;
    if u < body.len() {
        assert(out[u] == body[u]);
        lemma_shifted_only(ans, ans.len() as int, u);
        let i = choose|i: int| 0 <= i < ans.len() && (#[trigger] body[u] == (ans[i].0 + ans[i].2, ans[i].1 + ans[i].2) || (i < ans.len() - 1 && ans[i + 1].0 > ans[i].1 + 1 && body[u] == (ans[i].1 + 1, ans[i + 1].0 - 1)));
        if body[u] == (ans[i].0 + ans[i].2, ans[i].1 + ans[i].2) {
            let k = choose|k: int| 0 <= k < m.len() && meets(m, lo, hi, k) && #[trigger] ans[i] == clip(m, lo, hi, k);
            let x = y - ans[i].2;
            assert(in_rule(m[k], x));
            assert(sends(m, x, y));
        } else {
            lemma_outside_parts(lo, hi, m, y, i);
            assert(sends(m, y, y));
        }
    } else {
        lemma_ends(lo, hi, m);
        if ans.len() == 0 {
            assert(out[u] == (lo, hi));
            lemma_outside_parts(lo, hi, m, y, -1);
        } else if ans[0].0 != lo && out[u] == (lo, ans[0].0 - 1) {
            lemma_outside_parts(lo, hi, m, y, -1);
        } else {
            assert(out[u] == (ans.last().1 + 1, hi));
            lemma_outside_parts(lo, hi, m, y, ans.len() - 1);
        }
        assert(sends(m, y, y));
    }
}

/// What remapping means, point by point, for rules of positive length whose clipped parts
/// come in increasing order: each point of `[lo, hi]` is sent to a point that some
/// resulting range holds, and each point that a resulting range holds is where some point
/// of `[lo, hi]` is sent.
pub proof fn lemma_remap_sends(lo: int, hi: int, m: Seq<(int, int, int)>)
    requires
        lo <= hi,
        forall|k: int| 0 <= k < m.len() ==> #[trigger] m[k].2 > 0,
        ordered(overlaps(m, lo, hi, m.len() as int)),
    ensures
        forall|x: int, y: int| lo <= x <= hi && #[trigger] sends(m, x, y) ==> covers(remap_spec(lo, hi, m), y),
        forall|y: int| #[trigger] covers(remap_spec(lo, hi, m), y) ==> exists|x: int| lo <= x <= hi && sends(m, x, y),
{
    assert forall|x: int, y: int| lo <= x <= hi && #[trigger] sends(m, x, y) implies covers(remap_spec(lo, hi, m), y) by {
        lemma_remap_forward(lo, hi, m, x, y);
    }
    assert forall|y: int| #[trigger] covers(remap_spec(lo, hi, m), y) implies exists|x: int| lo <= x <= hi && sends(m, x, y) by {
        lemma_remap_backward(lo, hi, m, y);
    }
}

/// Carries the range `[lo, hi]` through the map `m`.
pub fn remap(lo: i64, hi: i64, m: &Vec<Rule>) -> (r: Vec<(i64, i64)>)
    requires
        remap_fits(lo as int, hi as int, rules(m@)),
    ensures
        spans(r@) == remap_spec(lo as int, hi as int, rules(m@)),
{
    reveal(remap_spec);
    reveal(shifted);
    reveal(overlaps);
    let ghost ms = rules(m@);
    let mut ans: Vec<(i64, i64, i64)> = Vec::new();
    let mut k: usize = 0;
    while k < m.len()
        invariant
            ms == rules(m@),
            remap_fits(lo as int, hi as int, ms),
            0 <= k <= m@.len(),
            rules(ans@) == overlaps(ms, lo as int, hi as int, k as int),
        decreases m@.len() - k,
    {
        reveal(overlaps);
        let (dst, src, r) = m[k];
        assert(ms[k as int] == (dst as int, src as int, r as int));
        let end = src + r - 1;
        let d = dst - src;
        if !(end < lo || src > hi) {
            let ghost a0 = ans@;
            ans.push((if src > lo { src } else { lo }, if end < hi { end } else { hi }, d));
            assert(rules(ans@) =~= rules(a0).push(rule_int(ans@.last())));
        }
        k += 1;
    }
    let ghost av = rules(ans@);
    assert(av == overlaps(ms, lo as int, hi as int, ms.len() as int));
    let mut result: Vec<(i64, i64)> = Vec::new();
    let mut i: usize = 0;
    while i < ans.len()
        invariant
            av == rules(ans@),
            av == overlaps(ms, lo as int, hi as int, ms.len() as int),
            remap_fits(lo as int, hi as int, ms),
            0 <= i <= ans@.len(),
            spans(result@) == shifted(av, i as int),
        decreases ans@.len() - i,
    {
        let (l, r, d) = ans[i];
        assert(av[i as int] == (l as int, r as int, d as int));
        let ghost r0 = result@;
        result.push((l + d, r + d));
        assert(spans(result@) =~= spans(r0).push((l + d, r + d)));
        if i + 1 < ans.len() && ans[i + 1].0 > r + 1 {
            assert(av[i + 1].0 == ans@[i + 1].0);
            assert(in_i64(av[i + 1].0 - 1));
            let ghost r1 = result@;
            result.push((r + 1, ans[i + 1].0 - 1));
            assert(spans(result@) =~= spans(r1).push((r + 1, ans@[i + 1].0 - 1)));
        }
        i += 1;
    }
    let n = ans.len();
    if n == 0 {
        let ghost r0 = result@;
        result.push((lo, hi));
        assert(spans(result@) =~= spans(r0).push((lo as int, hi as int)));
    } else {
        assert(av[0].0 == ans@[0].0 && av.last().1 == ans@[n - 1].1);
        assert(in_i64(av[0].0 - 1) && in_i64(av[n - 1].1 + 1));
        if ans[0].0 != lo {
            let ghost r0 = result@;
            result.push((lo, ans[0].0 - 1));
            assert(spans(result@) =~= spans(r0).push((lo as int, ans@[0].0 - 1)));
        }
        if ans[n - 1].1 != hi {
            let ghost r0 = result@;
            result.push((ans[n - 1].1 + 1, hi));
            assert(spans(result@) =~= spans(r0).push((ans@[n - 1].1 + 1, hi as int)));
        }
    }
    result
}

/// The ranges that the map `m` makes of each of the first `n` ranges of `rs`, in order.
pub open spec fn apply_map(rs: Seq<(int, int)>, m: Seq<(int, int, int)>, n: int) -> Seq<(int, int)>
    decreases n,
{
    if n <= 0 {
        Seq::empty()
    } else {
        apply_map(rs, m, n - 1) + remap_spec(rs[n - 1].0, rs[n - 1].1, m)
    }
}

/// The ranges after the first `k` maps.
pub open spec fn run(rs: Seq<(int, int)>, maps: Seq<Seq<(int, int, int)>>, k: int) -> Seq<(int, int)>
    decreases k,
{
    if k <= 0 {
        rs
    } else {
        let prev = run(rs, maps, k - 1);
        apply_map(prev, maps[k - 1], prev.len() as int)
    }
}

/// Every remapping along the first `k` maps stays within 64 bits.
pub open spec fn run_fits(rs: Seq<(int, int)>, maps: Seq<Seq<(int, int, int)>>, k: int) -> bool
    decreases k,
{
    if k <= 0 {
        true
    } else {
        let prev = run(rs, maps, k - 1);
        run_fits(rs, maps, k - 1) && forall|i: int| 0 <= i < prev.len() ==> remap_fits(#[trigger] prev[i].0, prev[i].1, maps[k - 1])
    }
}

/// The least of `p` and the lower ends of the ranges.
pub open spec fn lowest(p: int, rs: Seq<(int, int)>) -> int
    decreases rs.len(),
{
    if rs.len() == 0 {
        p
    } else {
        let q = lowest(p, rs.drop_last());
        if rs.last().0 < q {
            rs.last().0
        } else {
            q
        }
    }
}

/// The least lower end after all maps, over the seed ranges taken in order.
pub open spec fn best(seeds: Seq<(int, int)>, maps: Seq<Seq<(int, int, int)>>, n: int) -> int
    decreases n,
{
    if n <= 0 {
        i64::MAX as int
    } else {
        lowest(best(seeds, maps, n - 1), run(seq![seeds[n - 1]], maps, maps.len() as int))
    }
}

fn apply_exec(rs: &Vec<(i64, i64)>, m: &Vec<Rule>) -> (r: Vec<(i64, i64)>)
    requires
        forall|i: int| 0 <= i < rs@.len() ==> remap_fits(#[trigger] spans(rs@)[i].0, spans(rs@)[i].1, rules(m@)),
    ensures
        spans(r@) == apply_map(spans(rs@), rules(m@), rs@.len() as int),
{
    let ghost v = spans(rs@);
    let mut out: Vec<(i64, i64)> = Vec::new();
    let mut i: usize = 0;
    while i < rs.len()
        invariant
            v == spans(rs@),
            forall|i: int| 0 <= i < rs@.len() ==> remap_fits(#[trigger] v[i].0, v[i].1, rules(m@)),
            0 <= i <= rs@.len(),
            spans(out@) == apply_map(v, rules(m@), i as int),
        decreases rs@.len() - i,
    {
        let (lo, hi) = rs[i];
        assert(v[i as int] == (lo as int, hi as int));
        assert(remap_fits(v[i as int].0, v[i as int].1, rules(m@)));
        let mut part = remap(lo, hi, m);
        let ghost o0 = out@;
        let ghost p0 = part@;
        out.append(&mut part);
        assert(spans(out@) =~= spans(o0) + spans(p0));
        i += 1;
    }
    out
}

fn low_exec(p: i64, rs: &Vec<(i64, i64)>) -> (r: i64)
    ensures
        r == lowest(p as int, spans(rs@)),
{
    let ghost v = spans(rs@);
    let mut q = p;
    let mut i: usize = 0;
    while i < rs.len()
        invariant
            v == spans(rs@),
            0 <= i <= rs@.len(),
            q == lowest(p as int, v.take(i as int)),
        decreases rs@.len() - i,
    {
        assert(v.take(i + 1).drop_last() =~= v.take(i as int));
        if rs[i].0 < q {
            q = rs[i].0;
        }
        i += 1;
    }
    assert(v.take(v.len() as int) =~= v);
    q
}

pub open spec fn all_rules(maps: Seq<Vec<Rule>>) -> Seq<Seq<(int, int, int)>> {
    maps.map_values(|m: Vec<Rule>| rules(m@))
}

fn best_exec(seeds: &Vec<(i64, i64)>, maps: &Vec<Vec<Rule>>) -> (r: i64)
    requires
        forall|i: int| 0 <= i < seeds@.len() ==> run_fits(seq![#[trigger] spans(seeds@)[i]], all_rules(maps@), maps@.len() as int),
    ensures
        r == best(spans(seeds@), all_rules(maps@), seeds@.len() as int),
{
    let ghost ms = all_rules(maps@);
    let ghost sv = spans(seeds@);
    let mut p: i64 = i64::MAX;
    let mut i: usize = 0;
    while i < seeds.len()
        invariant
            ms == all_rules(maps@),
            sv == spans(seeds@),
            forall|i: int| 0 <= i < seeds@.len() ==> run_fits(seq![#[trigger] sv[i]], ms, maps@.len() as int),
            0 <= i <= seeds@.len(),
            p == best(sv, ms, i as int),
        decreases seeds@.len() - i,
    {
        let mut cur: Vec<(i64, i64)> = Vec::new();
        cur.push(seeds[i]);
        assert(spans(cur@) =~= seq![sv[i as int]]);
        let ghost start = seq![sv[i as int]];
        assert(run_fits(start, ms, maps@.len() as int));
        let mut k: usize = 0;
        while k < maps.len()
            invariant
                ms == all_rules(maps@),
                run_fits(start, ms, maps@.len() as int),
                0 <= k <= maps@.len(),
                spans(cur@) == run(start, ms, k as int),
            decreases maps@.len() - k,
        {
            proof {
                lemma_run_fits_prefix(start, ms, k + 1, maps@.len() as int);
            }
            assert(ms[k as int] == rules(maps@[k as int]@));
            cur = apply_exec(&cur, &maps[k]);
            k += 1;
        }
        p = low_exec(p, &cur);
        i += 1;
    }
    p
}

proof fn lemma_run_fits_prefix(rs: Seq<(int, int)>, maps: Seq<Seq<(int, int, int)>>, k: int, n: int)
    requires
        0 <= k <= n,
        run_fits(rs, maps, n),
    ensures
        run_fits(rs, maps, k),
    decreases n,
{
    if n > k {
        lemma_run_fits_prefix(rs, maps, k, n - 1);
    }
}

pub open spec fn blank_line() -> Seq<char> {
    seq!['\n', '\n']
}

pub open spec fn colon_space() -> Seq<char> {
    seq![':', ' ']
}

/// The words after the first `": "` of the first section.
pub open spec fn seed_words(s: Seq<char>) -> Seq<Seq<char>> {
    words(split_pat(split_pat(s, blank_line())[0], colon_space())[1])
}

pub open spec fn seed(s: Seq<char>, i: int) -> int {
    signed_value(seed_words(s)[i])->0
}

/// The four seeds, each a range of one.
pub open spec fn single_seeds(s: Seq<char>) -> Seq<(int, int)> {
    seq![(seed(s, 0), seed(s, 0)), (seed(s, 1), seed(s, 1)), (seed(s, 2), seed(s, 2)), (seed(s, 3), seed(s, 3))]
}

/// The first two pairs of seed numbers read as a start and a length.
pub open spec fn seed_ranges(s: Seq<char>) -> Seq<(int, int)> {
    seq![(seed(s, 0), seed(s, 0) + seed(s, 1) - 1), (seed(s, 2), seed(s, 3) + seed(s, 2) - 1)]
}

pub open spec fn almanac_maps(s: Seq<char>) -> Seq<Seq<(int, int, int)>> {
    let sec = split_pat(s, blank_line());
    seq![
        section_rules(sec[1]),
        section_rules(sec[2]),
        section_rules(sec[3]),
        section_rules(sec[4]),
        section_rules(sec[5]),
        section_rules(sec[6]),
        section_rules(sec[7]),
    ]
}

/// The almanac: seeds after `": "`, then seven map sections, all sums within 64 bits.
pub open spec fn almanac_ok(s: Seq<char>) -> bool {
    let sec = split_pat(s, blank_line());
    &&& sec.len() >= 8
    &&& split_pat(sec[0], colon_space()).len() >= 2
    &&& seed_words(s).len() >= 4
    &&& forall|i: int| 0 <= i < seed_words(s).len() ==> (#[trigger] signed_value(seed_words(s)[i])) is Some && in_i64(signed_value(seed_words(s)[i])->0)
    &&& in_i64(seed(s, 0) + seed(s, 1)) && in_i64(seed(s, 0) + seed(s, 1) - 1)
    &&& in_i64(seed(s, 3) + seed(s, 2)) && in_i64(seed(s, 3) + seed(s, 2) - 1)
    &&& forall|i: int| 0 <= i < 4 ==> run_fits(seq![#[trigger] single_seeds(s)[i]], almanac_maps(s), 7)
    &&& forall|i: int| 0 <= i < 2 ==> run_fits(seq![#[trigger] seed_ranges(s)[i]], almanac_maps(s), 7)
}

/// The lowest location for the four seeds, and for the two seed ranges.
pub fn part1_2(input: &str) -> (r: (i64, i64))
    requires
        almanac_ok(input@),
    ensures
        r.0 == best(single_seeds(input@), almanac_maps(input@), 4),
        r.1 == best(seed_ranges(input@), almanac_maps(input@), 2),
{
    let cs = chars_of(input);
    let blank = vec!['\n', '\n'];
    let cspace = vec![':', ' '];
    assert(blank@ =~= blank_line());
    assert(cspace@ =~= colon_space());
    let sections = split_seq(cs.as_slice(), blank.as_slice());
    let ghost sec = split_pat(input@, blank_line());
    assert(sections@[0]@ == sec[0]);
    let head = split_seq(sections[0].as_slice(), cspace.as_slice());
    let ws = words_of(head[1].as_slice());
    let ghost sw = seed_words(input@);
    assert(views(ws@) == sw);
    let mut seeds: Vec<i64> = Vec::new();
    let mut i: usize = 0;
    while i < ws.len()
        invariant
            sw == seed_words(input@),
            views(ws@) == sw,
            almanac_ok(input@),
            0 <= i <= ws@.len(),
            seeds@.len() == i,
            forall|k: int| 0 <= k < i ==> #[trigger] seeds@[k] as int == seed(input@, k),
        decreases ws@.len() - i,
    {
        assert(ws@[i as int]@ == sw[i as int]);
        assert(signed_value(sw[i as int]) is Some);
        let v = parse_i64(ws[i].as_slice()).unwrap();
        seeds.push(v);
        i += 1;
    }
    let singles = vec![(seeds[0], seeds[0]), (seeds[1], seeds[1]), (seeds[2], seeds[2]), (seeds[3], seeds[3])];
    let ranges = vec![(seeds[0], seeds[0] + seeds[1] - 1), (seeds[2], seeds[3] + seeds[2] - 1)];
    assert(spans(singles@) =~= single_seeds(input@));
    assert(spans(ranges@) =~= seed_ranges(input@));
    let mut maps: Vec<Vec<Rule>> = Vec::new();
    let mut k: usize = 1;
    while k < 8
        invariant
            sec == split_pat(input@, blank_line()),
            views(sections@) == sec,
            sec.len() >= 8,
            1 <= k <= 8,
            all_rules(maps@) == almanac_maps(input@).take(k - 1),
        decreases 8 - k,
    {
        assert(sections@[k as int]@ == sec[k as int]);
        let m = parse_map(&sections[k]);
        let ghost m0 = maps@;
        maps.push(m);
        assert(all_rules(maps@) =~= all_rules(m0).push(rules(m@)));
        assert(almanac_maps(input@).take(k as int) =~= almanac_maps(input@).take(k - 1).push(section_rules(sec[k as int])));
        k += 1;
    }
    assert(almanac_maps(input@).take(7) =~= almanac_maps(input@));
    assert forall|i: int| 0 <= i < singles@.len() implies run_fits(seq![#[trigger] spans(singles@)[i]], all_rules(maps@), maps@.len() as int) by {
        assert(run_fits(seq![single_seeds(input@)[i]], almanac_maps(input@), 7));
    }
    assert forall|i: int| 0 <= i < ranges@.len() implies run_fits(seq![#[trigger] spans(ranges@)[i]], all_rules(maps@), maps@.len() as int) by {
        assert(run_fits(seq![seed_ranges(input@)[i]], almanac_maps(input@), 7));
    }
    let part_one = best_exec(&singles, &maps);
    let part_two = best_exec(&ranges, &maps);
    (part_one, part_two)
}

/// Both answers for the almanac in `input`.
pub fn solve_day(input: &str) -> (r: ReturnSize)
    requires
        almanac_ok(input@),
    ensures
        r == ReturnSize::I64(
            (
                best(single_seeds(input@), almanac_maps(input@), 4) as i64,
                best(seed_ranges(input@), almanac_maps(input@), 2) as i64,
            ),
        ),
{
    ReturnSize::I64(part1_2(input))
}

} // verus!
