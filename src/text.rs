use vstd::prelude::*;
use vstd::std_specs::iter::IteratorSpec;

verus! {

/// The pieces of `s` between occurrences of `sep`; there is always at least one.
pub open spec fn pieces(s: Seq<char>, sep: char) -> Seq<Seq<char>>
    decreases s.len(),
{
    if s.len() == 0 {
        seq![Seq::<char>::empty()]
    } else {
        let prev = pieces(s.drop_last(), sep);
        if s.last() == sep {
            prev.push(Seq::<char>::empty())
        } else {
            prev.update(prev.len() - 1, prev.last().push(s.last()))
        }
    }
}

/// `l` without one carriage return at its end.
pub open spec fn drop_cr(l: Seq<char>) -> Seq<char> {
    if l.len() > 0 && l.last() == '\r' {
        l.drop_last()
    } else {
        l
    }
}

/// The lines of `s`: its pieces between newlines. A line that a newline ends loses a carriage
/// return just before it, and a final newline opens no empty last line.
pub open spec fn lines(s: Seq<char>) -> Seq<Seq<char>> {
    let p = pieces(s, '\n');
    let ended = Seq::new((p.len() - 1) as nat, |i: int| drop_cr(p[i]));
    if p.last().len() == 0 {
        ended
    } else {
        ended.push(p.last())
    }
}

pub open spec fn is_space(c: char) -> bool {
    c == ' ' || c == '\t' || c == '\n' || c == '\r' || c == '\x0C'
}

/// The maximal runs of non-space characters of `s`, in order.
pub open spec fn words(s: Seq<char>) -> Seq<Seq<char>>
    decreases s.len(),
{
    if s.len() == 0 {
        Seq::<Seq<char>>::empty()
    } else {
        let prev = words(s.drop_last());
        if is_space(s.last()) {
            prev
        } else if s.len() >= 2 && !is_space(s[s.len() - 2]) {
            prev.update(prev.len() - 1, prev.last().push(s.last()))
        } else {
            prev.push(seq![s.last()])
        }
    }
}

pub open spec fn is_digit(c: char) -> bool {
    '0' <= c && c <= '9'
}

pub open spec fn digit_value(c: char) -> nat {
    (c as nat - '0' as nat) as nat
}

pub open spec fn all_digits(s: Seq<char>) -> bool {
    forall|i: int| 0 <= i < s.len() ==> is_digit(#[trigger] s[i])
}

/// The number that the decimal digits `s` write.
pub open spec fn dec_value(s: Seq<char>) -> nat
    decreases s.len(),
{
    if s.len() == 0 {
        0
    } else {
        dec_value(s.drop_last()) * 10 + digit_value(s.last())
    }
}

/// `s` writes an unsigned decimal number below 2^128.
pub open spec fn is_number(s: Seq<char>) -> bool {
    s.len() > 0 && all_digits(s) && dec_value(s) <= u128::MAX
}

/// The value of each `Vec` in `v`.
pub open spec fn views(v: Seq<Vec<char>>) -> Seq<Seq<char>> {
    v.map_values(|x: Vec<char>| x@)
}

/// The characters of `s`, in order.
pub fn chars_of(s: &str) -> (r: Vec<char>)
    ensures
        r@ == s@,
{
    broadcast use vstd::string::axiom_spec_iter, vstd::string::next_postcondition;

    let mut it = s.chars();
    let mut r: Vec<char> = Vec::new();
    loop
        invariant
            r@ + IteratorSpec::remaining(&it) == s@,
            IteratorSpec::decrease(&it) is Some,
        ensures
            r@ == s@,
        decreases IteratorSpec::decrease(&it)->0,
    {
        match it.next() {
            Some(c) => {
                r.push(c);
            },
            None => {
                assert(r@ + IteratorSpec::remaining(&it) =~= r@);
                break;
            },
        }
    }
    r
}

pub proof fn lemma_views_push(v: Seq<Vec<char>>, x: Vec<char>)
    ensures
        views(v.push(x)) == views(v).push(x@),
{
    assert(views(v.push(x)) =~= views(v).push(x@));
}

/// Splits `s` at every `sep`.
pub fn split_chars(s: &[char], sep: char) -> (r: Vec<Vec<char>>)
    ensures
        views(r@) == pieces(s@, sep),
{
    let mut r: Vec<Vec<char>> = Vec::new();
    let mut cur: Vec<char> = Vec::new();
    let mut i: usize = 0;
    while i < s.len()
        invariant
            0 <= i <= s@.len(),
            views(r@).push(cur@) == pieces(s@.take(i as int), sep),
        decreases s@.len() - i,
    {
        let c = s[i];
        assert(s@.take(i + 1).drop_last() =~= s@.take(i as int));
        if c == sep {
            proof {
                lemma_views_push(r@, cur);
            }
            r.push(cur);
            cur = Vec::new();
            assert(views(r@).push(cur@) =~= pieces(s@.take(i as int), sep).push(Seq::empty()));
        } else {
            let ghost before = cur@;
            cur.push(c);
            assert(views(r@).push(cur@) =~= views(r@).push(before).update(
                views(r@).len() as int,
                before.push(c),
            ));
        }
        i += 1;
    }
    assert(s@.take(s@.len() as int) =~= s@);
    proof {
        lemma_views_push(r@, cur);
    }
    r.push(cur);
    r
}

/// Splits `s` into lines at each newline, as `lines` says.
pub fn lines_of(s: &[char]) -> (r: Vec<Vec<char>>)
    ensures
        views(r@) == lines(s@),
{
    let ps = split_chars(s, '\n');
    let ghost p = pieces(s@, '\n');
    proof {
        lemma_pieces_nonempty(s@, '\n');
    }
    let n = ps.len();
    let ghost ended = Seq::new((p.len() - 1) as nat, |i: int| drop_cr(p[i]));
    let mut r: Vec<Vec<char>> = Vec::new();
    let mut i: usize = 0;
    while i + 1 < n
        invariant
            p == pieces(s@, '\n'),
            views(ps@) == p,
            n == ps@.len(),
            n >= 1,
            ended == Seq::new((p.len() - 1) as nat, |i: int| drop_cr(p[i])),
            0 <= i <= n - 1,
            views(r@) == ended.take(i as int),
        decreases n - i,
    {
        let piece = &ps[i];
        assert(piece@ == p[i as int]);
        let m = piece.len();
        let line = if m > 0 && piece[m - 1] == '\r' {
            slice_range(piece.as_slice(), 0, m - 1)
        } else {
            slice_range(piece.as_slice(), 0, m)
        };
        assert(line@ =~= drop_cr(p[i as int]));
        proof {
            lemma_views_push(r@, line);
        }
        r.push(line);
        assert(views(r@) =~= ended.take(i + 1));
        i += 1;
    }
    assert(ended.take(i as int) =~= ended);
    let last = &ps[n - 1];
    assert(last@ == p.last());
    if last.len() > 0 {
        let line = slice_range(last.as_slice(), 0, last.len());
        assert(line@ =~= p.last());
        proof {
            lemma_views_push(r@, line);
        }
        r.push(line);
    }
    r
}

pub proof fn lemma_pieces_nonempty(s: Seq<char>, sep: char)
    ensures
        pieces(s, sep).len() >= 1,
    decreases s.len(),
{
    if s.len() > 0 {
        lemma_pieces_nonempty(s.drop_last(), sep);
    }
}

/// Splits `s` into its maximal runs of non-space characters.
pub fn words_of(s: &[char]) -> (r: Vec<Vec<char>>)
    ensures
        views(r@) == words(s@),
{
    let mut r: Vec<Vec<char>> = Vec::new();
    let mut cur: Vec<char> = Vec::new();
    let mut i: usize = 0;
    while i < s.len()
        invariant
            0 <= i <= s@.len(),
            cur@.len() == 0 ==> views(r@) == words(s@.take(i as int)),
            cur@.len() > 0 ==> views(r@).push(cur@) == words(s@.take(i as int)),
            cur@.len() == 0 <==> (i == 0 || is_space(s@[i - 1])),
        decreases s@.len() - i,
    {
        let c = s[i];
        let ghost t = s@.take(i + 1);
        assert(t.drop_last() =~= s@.take(i as int));
        assert(i >= 1 ==> t[t.len() - 2] == s@[i - 1]);
        if c == ' ' || c == '\t' || c == '\n' || c == '\r' || c == '\x0C' {
            if cur.len() > 0 {
                proof {
                    lemma_views_push(r@, cur);
                }
                r.push(cur);
                cur = Vec::new();
            }
        } else {
            if cur.len() == 0 {
                cur.push(c);
                assert(cur@ =~= seq![c]);
            } else {
                let ghost before = cur@;
                cur.push(c);
                assert(views(r@).push(cur@) =~= views(r@).push(before).update(
                    views(r@).len() as int,
                    before.push(c),
                ));
            }
        }
        i += 1;
    }
    assert(s@.take(s@.len() as int) =~= s@);
    if cur.len() > 0 {
        proof {
            lemma_views_push(r@, cur);
        }
        r.push(cur);
    }
    r
}

pub proof fn lemma_dec_value_prefix(s: Seq<char>, i: int)
    requires
        0 <= i <= s.len(),
    ensures
        dec_value(s.take(i)) <= dec_value(s),
    decreases s.len(),
{
    if i < s.len() {
        assert(s.drop_last().take(i) =~= s.take(i));
        lemma_dec_value_prefix(s.drop_last(), i);
    } else {
        assert(s.take(i) =~= s);
    }
}

/// Reads an unsigned decimal number: `None` unless `s` is a nonempty run of digits whose
/// value fits in 128 bits.
pub fn parse_u128(s: &[char]) -> (r: Option<u128>)
    ensures
        r is Some <==> is_number(s@),
        r is Some ==> r->0 == dec_value(s@),
{
    if s.len() == 0 {
        return None;
    }
    let mut v: u128 = 0;
    let mut i: usize = 0;
    while i < s.len()
        invariant
            0 <= i <= s@.len(),
            all_digits(s@.take(i as int)),
            v == dec_value(s@.take(i as int)),
        decreases s@.len() - i,
    {
        let c = s[i];
        assert(s@.take(i + 1).drop_last() =~= s@.take(i as int));
        if !('0' <= c && c <= '9') {
            assert(!all_digits(s@));
            return None;
        }
        let d = (c as u32 - '0' as u32) as u128;
        if v > (u128::MAX - d) / 10 {
            proof {
                lemma_dec_value_prefix(s@, i + 1);
            }
            assert(dec_value(s@.take(i + 1)) > u128::MAX) by (nonlinear_arith)
                requires
                    dec_value(s@.take(i + 1)) == v * 10 + d,
                    v > (u128::MAX - d) / 10,
                    d <= 9,
            ;
            return None;
        }
        assert(v * 10 + d <= u128::MAX) by (nonlinear_arith)
            requires
                v <= (u128::MAX - d) / 10,
                d <= 9,
        ;
        v = v * 10 + d;
        i += 1;
    }
    assert(s@.take(s@.len() as int) =~= s@);
    Some(v)
}

/// The integer that `s` writes: decimal digits after an optional minus sign.
pub open spec fn signed_value(s: Seq<char>) -> Option<int> {
    if s.len() > 0 && s[0] == '-' {
        if s.len() > 1 && all_digits(s.drop_first()) {
            Some(-(dec_value(s.drop_first()) as int))
        } else {
            None
        }
    } else if s.len() > 0 && all_digits(s) {
        Some(dec_value(s) as int)
    } else {
        None
    }
}

pub open spec fn in_i64(v: int) -> bool {
    i64::MIN <= v <= i64::MAX
}

/// Reads an integer of 64 bits: `None` unless `s` writes one in range.
pub fn parse_i64(s: &[char]) -> (r: Option<i64>)
    ensures
        r is Some <==> (signed_value(s@) is Some && in_i64(signed_value(s@)->0)),
        r is Some ==> r->0 == signed_value(s@)->0,
{
    if s.len() > 0 && s[0] == '-' {
        let rest = slice_from(s, 1);
        assert(rest@ =~= s@.drop_first());
        match parse_u128(rest.as_slice()) {
            Some(v) => {
                if v <= 9223372036854775808 {
                    Some((0 - v as i128) as i64)
                } else {
                    None
                }
            },
            None => None,
        }
    } else {
        match parse_u128(s) {
            Some(v) => {
                if v <= 9223372036854775807 {
                    Some(v as i64)
                } else {
                    None
                }
            },
            None => None,
        }
    }
}

/// The characters of `s` from index `start` on.
pub fn slice_from(s: &[char], start: usize) -> (r: Vec<char>)
    requires
        start <= s@.len(),
    ensures
        r@ == s@.subrange(start as int, s@.len() as int),
{
    let mut r: Vec<char> = Vec::new();
    let mut i: usize = start;
    while i < s.len()
        invariant
            start <= i <= s@.len(),
            r@ == s@.subrange(start as int, i as int),
        decreases s@.len() - i,
    {
        r.push(s[i]);
        i += 1;
        assert(r@ =~= s@.subrange(start as int, i as int));
    }
    r
}

/// The characters of `s` from index `start` up to, not including, `end`.
pub fn slice_range(s: &[char], start: usize, end: usize) -> (r: Vec<char>)
    requires
        start <= end <= s@.len(),
    ensures
        r@ == s@.subrange(start as int, end as int),
{
    let mut r: Vec<char> = Vec::new();
    let mut i: usize = start;
    while i < end
        invariant
            start <= i <= end <= s@.len(),
            r@ == s@.subrange(start as int, i as int),
        decreases end - i,
    {
        r.push(s[i]);
        i += 1;
        assert(r@ =~= s@.subrange(start as int, i as int));
    }
    r
}

/// `s` without its leading white space.
pub open spec fn trim_start(s: Seq<char>) -> Seq<char>
    decreases s.len(),
{
    if s.len() > 0 && is_space(s[0]) {
        trim_start(s.drop_first())
    } else {
        s
    }
}

/// `s` without its trailing white space.
pub open spec fn trim_end(s: Seq<char>) -> Seq<char>
    decreases s.len(),
{
    if s.len() > 0 && is_space(s.last()) {
        trim_end(s.drop_last())
    } else {
        s
    }
}

/// `s` without leading or trailing white space.
pub open spec fn trim(s: Seq<char>) -> Seq<char> {
    trim_end(trim_start(s))
}

/// The index of the first `c` in `s`, if there is one.
pub open spec fn find_char(s: Seq<char>, c: char) -> Option<int>
    decreases s.len(),
{
    if s.len() == 0 {
        None
    } else if s[0] == c {
        Some(0)
    } else {
        match find_char(s.drop_first(), c) {
            Some(i) => Some(i + 1),
            None => None,
        }
    }
}

/// `s` with every `c` taken out.
pub open spec fn without(s: Seq<char>, c: char) -> Seq<char>
    decreases s.len(),
{
    if s.len() == 0 {
        s
    } else if s.last() == c {
        without(s.drop_last(), c)
    } else {
        without(s.drop_last(), c).push(s.last())
    }
}

proof fn lemma_trim_start_step(s: Seq<char>, i: int)
    requires
        0 <= i < s.len(),
        forall|k: int| 0 <= k < i ==> is_space(#[trigger] s[k]),
    ensures
        trim_start(s) == trim_start(s.subrange(i, s.len() as int)),
    decreases i,
{
    if i > 0 {
        assert(s.drop_first().subrange(i - 1, s.drop_first().len() as int) =~= s.subrange(i, s.len() as int));
        lemma_trim_start_step(s.drop_first(), i - 1);
    } else {
        assert(s.subrange(0, s.len() as int) =~= s);
    }
}

proof fn lemma_trim_end_step(s: Seq<char>, j: int)
    requires
        0 <= j <= s.len(),
        forall|k: int| j <= k < s.len() ==> is_space(#[trigger] s[k]),
    ensures
        trim_end(s) == trim_end(s.subrange(0, j)),
    decreases s.len() - j,
{
    if j < s.len() {
        assert(s.drop_last().subrange(0, j) =~= s.subrange(0, j));
        lemma_trim_end_step(s.drop_last(), j);
    } else {
        assert(s.subrange(0, j) =~= s);
    }
}

/// `s` without leading or trailing white space.
pub fn trim_chars(s: &[char]) -> (r: Vec<char>)
    ensures
        r@ == trim(s@),
{
    let mut i: usize = 0;
    while i < s.len() && is_space_exec(s[i])
        invariant
            0 <= i <= s@.len(),
            forall|k: int| 0 <= k < i ==> is_space(#[trigger] s@[k]),
        decreases s@.len() - i,
    {
        i += 1;
    }
    let ghost t = s@.subrange(i as int, s@.len() as int);
    proof {
        if i < s@.len() {
            lemma_trim_start_step(s@, i as int);
        } else {
            lemma_trim_start_all(s@);
        }
    }
    assert(trim_start(s@) == t);
    let mut j: usize = s.len();
    while j > i && is_space_exec(s[j - 1])
        invariant
            i <= j <= s@.len(),
            forall|k: int| j <= k < s@.len() ==> is_space(#[trigger] s@[k]),
        decreases j,
    {
        j -= 1;
    }
    proof {
        let u = t.subrange(0, j - i);
        assert forall|k: int| j - i <= k < t.len() implies is_space(#[trigger] t[k]) by {
            assert(t[k] == s@[k + i]);
        }
        lemma_trim_end_step(t, j - i);
        if j > i {
            assert(u.last() == s@[j - 1]);
        } else {
            assert(u.len() == 0);
        }
        assert(trim_end(u) == u);
        assert(u =~= s@.subrange(i as int, j as int));
    }
    slice_range(s, i, j)
}

proof fn lemma_trim_start_all(s: Seq<char>)
    requires
        forall|k: int| 0 <= k < s.len() ==> is_space(#[trigger] s[k]),
    ensures
        trim_start(s) == Seq::<char>::empty(),
    decreases s.len(),
{
    if s.len() > 0 {
        assert forall|k: int| 0 <= k < s.drop_first().len() implies is_space(#[trigger] s.drop_first()[k]) by {
            assert(s.drop_first()[k] == s[k + 1]);
        }
        lemma_trim_start_all(s.drop_first());
    } else {
        assert(s =~= Seq::<char>::empty());
    }
}

pub fn is_space_exec(c: char) -> (r: bool)
    ensures
        r == is_space(c),
{
    c == ' ' || c == '\t' || c == '\n' || c == '\r' || c == '\x0C'
}

/// The index of the first `c` in `s`, if there is one.
pub fn find(s: &[char], c: char) -> (r: Option<usize>)
    ensures
        r is Some <==> find_char(s@, c) is Some,
        r is Some ==> r->0 == find_char(s@, c)->0,
        r is Some ==> r->0 < s@.len() && s@[r->0 as int] == c,
{
    let mut i: usize = 0;
    while i < s.len()
        invariant
            0 <= i <= s@.len(),
            forall|k: int| 0 <= k < i ==> #[trigger] s@[k] != c,
        decreases s@.len() - i,
    {
        if s[i] == c {
            proof {
                lemma_find_char(s@, c, i as int);
            }
            return Some(i);
        }
        i += 1;
    }
    proof {
        lemma_find_none(s@, c);
    }
    None
}

proof fn lemma_find_char(s: Seq<char>, c: char, i: int)
    requires
        0 <= i < s.len(),
        s[i] == c,
        forall|k: int| 0 <= k < i ==> #[trigger] s[k] != c,
    ensures
        find_char(s, c) == Some(i),
    decreases i,
{
    if i > 0 {
        assert forall|k: int| 0 <= k < i - 1 implies #[trigger] s.drop_first()[k] != c by {
            assert(s.drop_first()[k] == s[k + 1]);
        }
        lemma_find_char(s.drop_first(), c, i - 1);
    }
}

proof fn lemma_find_none(s: Seq<char>, c: char)
    requires
        forall|k: int| 0 <= k < s.len() ==> #[trigger] s[k] != c,
    ensures
        find_char(s, c) is None,
    decreases s.len(),
{
    if s.len() > 0 {
        assert forall|k: int| 0 <= k < s.drop_first().len() implies #[trigger] s.drop_first()[k] != c by {
            assert(s.drop_first()[k] == s[k + 1]);
        }
        lemma_find_none(s.drop_first(), c);
    }
}

/// `s` with every `c` taken out.
pub fn remove_all(s: &[char], c: char) -> (r: Vec<char>)
    ensures
        r@ == without(s@, c),
{
    let mut r: Vec<char> = Vec::new();
    let mut i: usize = 0;
    while i < s.len()
        invariant
            0 <= i <= s@.len(),
            r@ == without(s@.take(i as int), c),
        decreases s@.len() - i,
    {
        assert(s@.take(i + 1).drop_last() =~= s@.take(i as int));
        if s[i] != c {
            r.push(s[i]);
        }
        i += 1;
    }
    assert(s@.take(s@.len() as int) =~= s@);
    r
}

/// What follows the first `c` of `s` (nothing where there is none).
pub open spec fn after_first(s: Seq<char>, c: char) -> Seq<char> {
    match find_char(s, c) {
        Some(i) => s.subrange(i + 1, s.len() as int),
        None => Seq::empty(),
    }
}

/// What precedes the first `c` of `s` (all of it where there is none).
pub open spec fn before_first(s: Seq<char>, c: char) -> Seq<char> {
    match find_char(s, c) {
        Some(i) => s.take(i),
        None => s,
    }
}

/// Every word of `s` writes a number.
pub open spec fn all_numbers(s: Seq<char>) -> bool {
    forall|i: int| 0 <= i < words(s).len() ==> is_number(#[trigger] words(s)[i])
}

/// The numbers that the words of `s` write.
pub open spec fn word_values(s: Seq<char>) -> Seq<nat> {
    words(s).map_values(|w: Seq<char>| dec_value(w))
}

pub open spec fn nats(v: Seq<u128>) -> Seq<nat> {
    v.map_values(|x: u128| x as nat)
}

/// What follows the first `c` of `s`.
pub fn after_char(s: &[char], c: char) -> (r: Vec<char>)
    ensures
        r@ == after_first(s@, c),
{
    match find(s, c) {
        Some(i) => {
            let n = s.len();
            assert(i < n);
            slice_from(s, i + 1)
        },
        None => Vec::new(),
    }
}

/// What precedes the first `c` of `s`.
pub fn before_char(s: &[char], c: char) -> (r: Vec<char>)
    ensures
        r@ == before_first(s@, c),
{
    match find(s, c) {
        Some(i) => slice_range(s, 0, i),
        None => {
            let r = slice_from(s, 0);
            assert(r@ =~= s@);
            r
        },
    }
}

/// The numbers that the words of `s` write.
pub fn parse_words(s: &[char]) -> (r: Vec<u128>)
    requires
        all_numbers(s@),
    ensures
        nats(r@) == word_values(s@),
{
    let ws = words_of(s);
    let ghost w = words(s@);
    let mut r: Vec<u128> = Vec::new();
    let mut i: usize = 0;
    while i < ws.len()
        invariant
            w == words(s@),
            views(ws@) == w,
            all_numbers(s@),
            0 <= i <= ws@.len(),
            nats(r@) == word_values(s@).take(i as int),
        decreases ws@.len() - i,
    {
        assert(ws@[i as int]@ == w[i as int]);
        assert(is_number(w[i as int]));
        let v = parse_u128(ws[i].as_slice()).unwrap();
        let ghost r0 = r@;
        r.push(v);
        assert(nats(r@) =~= nats(r0).push(v as nat));
        assert(word_values(s@).take(i + 1) =~= word_values(s@).take(i as int).push(word_values(s@)[i as int]));
        i += 1;
    }
    assert(word_values(s@).take(ws@.len() as int) =~= word_values(s@));
    r
}

pub open spec fn strings(v: Seq<String>) -> Seq<Seq<char>> {
    v.map_values(|s: String| s@)
}

/// The characters of each string.
pub fn to_char_lines(input: &Vec<String>) -> (r: Vec<Vec<char>>)
    ensures
        views(r@) == strings(input@),
{
    let mut lines: Vec<Vec<char>> = Vec::new();
    let mut i: usize = 0;
    while i < input.len()
        invariant
            0 <= i <= input@.len(),
            views(lines@) == strings(input@).take(i as int),
        decreases input@.len() - i,
    {
        let l = chars_of(input[i].as_str());
        proof {
            lemma_views_push(lines@, l);
        }
        lines.push(l);
        assert(views(lines@) =~= strings(input@).take(i + 1));
        i += 1;
    }
    assert(strings(input@).take(i as int) =~= strings(input@));
    lines
}

/// The index of the first occurrence of `pat` in `s`, if there is one.
pub open spec fn find_pat(s: Seq<char>, pat: Seq<char>) -> Option<int>
    decreases s.len(),
{
    if s.len() < pat.len() {
        None
    } else if s.take(pat.len() as int) == pat {
        Some(0)
    } else if s.len() == 0 {
        None
    } else {
        match find_pat(s.drop_first(), pat) {
            Some(i) => Some(i + 1),
            None => None,
        }
    }
}

/// What precedes the first `pat` of `s` (all of it where there is none).
pub open spec fn before_pat(s: Seq<char>, pat: Seq<char>) -> Seq<char> {
    match find_pat(s, pat) {
        Some(i) => s.take(i),
        None => s,
    }
}

/// What follows the first `pat` of `s` (nothing where there is none).
pub open spec fn after_pat(s: Seq<char>, pat: Seq<char>) -> Seq<char> {
    match find_pat(s, pat) {
        Some(i) => s.subrange(i + pat.len(), s.len() as int),
        None => Seq::empty(),
    }
}

/// `s` without the run of `c` at its end.
pub open spec fn strip_end(s: Seq<char>, c: char) -> Seq<char>
    decreases s.len(),
{
    if s.len() > 0 && s.last() == c {
        strip_end(s.drop_last(), c)
    } else {
        s
    }
}

/// `s` holds `pat` at index `i`.
pub fn matches_at(s: &[char], i: usize, pat: &[char]) -> (r: bool)
    requires
        i <= s@.len(),
    ensures
        r == (s@.len() - i >= pat@.len() && s@.subrange(i as int, i + pat@.len()) == pat@),
{
    let n = s.len();
    if n - i < pat.len() {
        return false;
    }
    let mut k: usize = 0;
    while k < pat.len()
        invariant
            n == s@.len(),
            i + pat@.len() <= n,
            0 <= k <= pat@.len(),
            forall|t: int| 0 <= t < k ==> s@[i + t] == #[trigger] pat@[t],
        decreases pat@.len() - k,
    {
        if s[i + k] != pat[k] {
            assert(s@.subrange(i as int, i + pat@.len())[k as int] != pat@[k as int]);
            return false;
        }
        k += 1;
    }
    assert(s@.subrange(i as int, i + pat@.len()) =~= pat@);
    true
}

proof fn lemma_find_pat_shift(s: Seq<char>, pat: Seq<char>, i: int)
    requires
        0 <= i <= s.len(),
        forall|k: int| 0 <= k < i ==> !(s.len() - k >= pat.len() && #[trigger] s.subrange(k, k + pat.len()) == pat),
    ensures
        find_pat(s, pat) == match find_pat(s.skip(i), pat) {
            Some(j) => Some(j + i),
            None => None::<int>,
        },
    decreases i,
{
    if i > 0 {
        if s.len() >= pat.len() {
            assert(s.subrange(0int, 0int + pat.len()) =~= s.take(pat.len() as int));
            assert(!(s.len() - 0 >= pat.len() && s.subrange(0int, 0int + pat.len()) == pat));
        }
        assert(s.len() > 0);
        assert forall|k: int| 0 <= k < i - 1 implies !(s.drop_first().len() - k >= pat.len() && #[trigger] s.drop_first().subrange(k, k + pat.len()) == pat) by {
            if s.drop_first().len() - k >= pat.len() {
                assert(s.drop_first().subrange(k, k + pat.len()) =~= s.subrange(k + 1, k + 1 + pat.len()));
            }
        }
        lemma_find_pat_shift(s.drop_first(), pat, i - 1);
        assert(s.drop_first().skip(i - 1) =~= s.skip(i));
        if s.len() < pat.len() {
            assert(s.skip(i).len() < pat.len());
            lemma_find_pat_short(s.skip(i), pat);
        }
    } else {
        assert(s.skip(0) =~= s);
    }
}

proof fn lemma_find_pat_short(s: Seq<char>, pat: Seq<char>)
    requires
        s.len() < pat.len(),
    ensures
        find_pat(s, pat) is None,
{
}

/// The index of the first occurrence of `pat` in `s`, if there is one.
pub fn find_seq(s: &[char], pat: &[char]) -> (r: Option<usize>)
    requires
        pat@.len() > 0,
    ensures
        r is Some <==> find_pat(s@, pat@) is Some,
        r is Some ==> r->0 == find_pat(s@, pat@)->0,
{
    let mut i: usize = 0;
    while i < s.len()
        invariant
            pat@.len() > 0,
            0 <= i <= s@.len(),
            forall|k: int| 0 <= k < i ==> !(s@.len() - k >= pat@.len() && #[trigger] s@.subrange(k, k + pat@.len()) == pat@),
        decreases s@.len() - i,
    {
        if matches_at(s, i, pat) {
            proof {
                lemma_find_pat_shift(s@, pat@, i as int);
                assert(s@.skip(i as int).take(pat@.len() as int) =~= s@.subrange(i as int, i + pat@.len()));
            }
            return Some(i);
        }
        i += 1;
    }
    proof {
        lemma_find_pat_shift(s@, pat@, i as int);
        assert(s@.skip(i as int).len() == 0);
        lemma_find_pat_short(s@.skip(i as int), pat@);
    }
    None
}

/// What precedes the first `pat` of `s`.
pub fn before_seq(s: &[char], pat: &[char]) -> (r: Vec<char>)
    requires
        pat@.len() > 0,
    ensures
        r@ == before_pat(s@, pat@),
{
    match find_seq(s, pat) {
        Some(i) => {
            proof {
                lemma_find_pat_bound(s@, pat@);
            }
            slice_range(s, 0, i)
        },
        None => {
            let r = slice_from(s, 0);
            assert(r@ =~= s@);
            r
        },
    }
}

/// What follows the first `pat` of `s`.
pub fn after_seq(s: &[char], pat: &[char]) -> (r: Vec<char>)
    requires
        pat@.len() > 0,
    ensures
        r@ == after_pat(s@, pat@),
{
    match find_seq(s, pat) {
        Some(i) => {
            proof {
                lemma_find_pat_bound(s@, pat@);
            }
            let n = s.len();
            assert(i + pat@.len() <= n);
            slice_from(s, i + pat.len())
        },
        None => Vec::new(),
    }
}

pub proof fn lemma_find_pat_bound(s: Seq<char>, pat: Seq<char>)
    ensures
        find_pat(s, pat) matches Some(i) ==> 0 <= i && i + pat.len() <= s.len(),
    decreases s.len(),
{
    if s.len() >= pat.len() && s.take(pat.len() as int) != pat && s.len() > 0 {
        lemma_find_pat_bound(s.drop_first(), pat);
    }
}

/// `s` without the run of `c` at its end.
pub fn strip_end_chars(s: &[char], c: char) -> (r: Vec<char>)
    ensures
        r@ == strip_end(s@, c),
{
    let mut j: usize = s.len();
    assert(s@.take(j as int) =~= s@);
    while j > 0 && s[j - 1] == c
        invariant
            0 <= j <= s@.len(),
            strip_end(s@, c) == strip_end(s@.take(j as int), c),
        decreases j,
    {
        assert(s@.take(j as int).drop_last() =~= s@.take(j - 1));
        j -= 1;
    }
    assert(s@.take(s@.len() as int) =~= s@);
    slice_range(s, 0, j)
}

/// The pieces of `s` between occurrences of `pat`, scanning from the left.
pub open spec fn split_pat(s: Seq<char>, pat: Seq<char>) -> Seq<Seq<char>>
    decreases s.len(),
{
    if pat.len() == 0 {
        seq![s]
    } else {
        match find_pat(s, pat) {
            Some(i) => if 0 <= i && i + pat.len() <= s.len() {
                seq![s.take(i)] + split_pat(s.subrange(i + pat.len(), s.len() as int), pat)
            } else {
                seq![s]
            },
            None => seq![s],
        }
    }
}

/// Splits `s` at every occurrence of `pat`.
pub fn split_seq(s: &[char], pat: &[char]) -> (r: Vec<Vec<char>>)
    requires
        pat@.len() > 0,
    ensures
        views(r@) == split_pat(s@, pat@),
{
    let mut r: Vec<Vec<char>> = Vec::new();
    let mut rest: Vec<char> = slice_from(s, 0);
    assert(rest@ =~= s@);
    loop
        invariant
            pat@.len() > 0,
            views(r@) + split_pat(rest@, pat@) == split_pat(s@, pat@),
        decreases rest@.len(),
    {
        match find_seq(rest.as_slice(), pat) {
            Some(i) => {
                proof {
                    lemma_find_pat_bound(rest@, pat@);
                }
                let n = rest.len();
                assert(i + pat@.len() <= n);
                let head = slice_range(rest.as_slice(), 0, i);
                let tail = slice_from(rest.as_slice(), i + pat.len());
                assert(head@ =~= rest@.take(i as int));
                let ghost r0 = r@;
                proof {
                    lemma_views_push(r0, head);
                }
                r.push(head);
                assert(views(r@) + split_pat(tail@, pat@) =~= views(r0) + split_pat(rest@, pat@));
                rest = tail;
            },
            None => {
                let ghost r0 = r@;
                proof {
                    lemma_views_push(r0, rest);
                }
                r.push(rest);
                assert(views(r@) =~= views(r0) + split_pat(rest@, pat@));
                return r;
            },
        }
    }
}

} // verus!
