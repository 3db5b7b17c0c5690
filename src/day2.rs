//! Cube games: which games a bag of 12 red, 13 green and 14 blue cubes allows, and the
//! fewest cubes each game needs.
use vstd::prelude::*;

use crate::text::{after_first, before_first, chars_of, dec_value, find, find_char, is_number, lines, lines_of, parse_u128, pieces, slice_from, slice_range, split_chars, strings, to_char_lines, trim, trim_chars, views};
use crate::ReturnSize;

verus! {

/// One game: its number, the fewest cubes of each colour it needs, the power of that set,
/// and whether the bag allows every round.
pub struct Game {
    pub id: u32,
    pub mins: (u32, u32, u32),
    pub power: u32,
    pub valid: bool,
}

/// The cubes in the bag: red, green, blue.
pub const CUBE_CONFIG: (u32, u32, u32) = (12, 13, 14);

/// A count and its colour: the trimmed text split at its first space.
pub open spec fn config_of(c: Seq<char>) -> Option<(Seq<char>, Seq<char>)> {
    let t = trim(c);
    match find_char(t, ' ') {
        Some(i) => Some((t.take(i), t.subrange(i + 1, t.len() as int))),
        None => None,
    }
}

pub open spec fn add_color(cv: (nat, nat, nat), n: nat, col: Seq<char>) -> (nat, nat, nat) {
    if col == seq!['r', 'e', 'd'] {
        (cv.0 + n, cv.1, cv.2)
    } else if col == seq!['g', 'r', 'e', 'e', 'n'] {
        (cv.0, cv.1 + n, cv.2)
    } else if col == seq!['b', 'l', 'u', 'e'] {
        (cv.0, cv.1, cv.2 + n)
    } else {
        cv
    }
}

/// The cubes of each colour shown in the first `n` parts of a round.
pub open spec fn round_upto(ps: Seq<Seq<char>>, n: int) -> (nat, nat, nat)
    decreases n,
{
    if n <= 0 {
        (0, 0, 0)
    } else {
        let cv = round_upto(ps, n - 1);
        match config_of(ps[n - 1]) {
            Some((amt, col)) => add_color(cv, dec_value(amt), col),
            None => cv,
        }
    }
}

pub open spec fn round_counts(round: Seq<char>) -> (nat, nat, nat) {
    let ps = pieces(round, ',');
    round_upto(ps, ps.len() as int)
}

pub open spec fn fits3(cv: (nat, nat, nat)) -> bool {
    cv.0 <= u32::MAX && cv.1 <= u32::MAX && cv.2 <= u32::MAX
}

/// Each count of a round writes a number, and every running total fits in 32 bits.
pub open spec fn round_ok(round: Seq<char>) -> bool {
    let ps = pieces(round, ',');
    &&& forall|i: int| 0 <= i < ps.len() ==> (#[trigger] config_of(ps[i]) matches Some((amt, _)) ==> is_number(amt))
    &&& forall|k: int| 0 <= k <= ps.len() ==> fits3(#[trigger] round_upto(ps, k))
}

pub open spec fn max(a: nat, b: nat) -> nat {
    if a < b {
        b
    } else {
        a
    }
}

pub open spec fn allowed(cv: (nat, nat, nat)) -> bool {
    cv.0 <= 12 && cv.1 <= 13 && cv.2 <= 14
}

/// The fewest cubes of each colour for the first `n` rounds, and whether the bag allows
/// them all.
pub open spec fn game_upto(rs: Seq<Seq<char>>, n: int) -> ((nat, nat, nat), bool)
    decreases n,
{
    if n <= 0 {
        ((0, 0, 0), true)
    } else {
        let (m, v) = game_upto(rs, n - 1);
        let cv = round_counts(rs[n - 1]);
        ((max(m.0, cv.0), max(m.1, cv.1), max(m.2, cv.2)), v && allowed(cv))
    }
}

pub open spec fn rounds(line: Seq<char>) -> Seq<Seq<char>> {
    pieces(after_first(line, ':'), ';')
}

pub open spec fn game_id(line: Seq<char>) -> nat {
    dec_value(before_first(line, ':').skip(5))
}

pub open spec fn game_mins(line: Seq<char>) -> (nat, nat, nat) {
    game_upto(rounds(line), rounds(line).len() as int).0
}

pub open spec fn game_valid(line: Seq<char>) -> bool {
    game_upto(rounds(line), rounds(line).len() as int).1
}

pub open spec fn game_power(line: Seq<char>) -> nat {
    game_mins(line).0 * game_mins(line).1 * game_mins(line).2
}

/// `Game <id>: ` then rounds split by `;`, counts by `,`, each `<number> <colour>`.
pub open spec fn game_ok(line: Seq<char>) -> bool {
    &&& find_char(line, ':') is Some
    &&& before_first(line, ':').len() >= 5
    &&& is_number(before_first(line, ':').skip(5))
    &&& game_id(line) <= u32::MAX
    &&& forall|i: int| 0 <= i < rounds(line).len() ==> round_ok(#[trigger] rounds(line)[i])
    &&& game_mins(line).0 * game_mins(line).1 <= u32::MAX
    &&& game_power(line) <= u32::MAX
}

fn eq_chars(a: &Vec<char>, b: &Vec<char>) -> (r: bool)
    ensures
        r == (a@ == b@),
{
    if a.len() != b.len() {
        return false;
    }
    let mut i: usize = 0;
    while i < a.len()
        invariant
            a@.len() == b@.len(),
            0 <= i <= a@.len(),
            forall|k: int| 0 <= k < i ==> a@[k] == b@[k],
        decreases a@.len() - i,
    {
        if a[i] != b[i] {
            return false;
        }
        i += 1;
    }
    assert(a@ =~= b@);
    true
}

fn round_of(round: &[char]) -> (r: (u32, u32, u32))
    requires
        round_ok(round@),
    ensures
        (r.0 as nat, r.1 as nat, r.2 as nat) == round_counts(round@),
{
    let ps = split_chars(round, ',');
    let ghost p = pieces(round@, ',');
    let red = vec!['r', 'e', 'd'];
    let green = vec!['g', 'r', 'e', 'e', 'n'];
    let blue = vec!['b', 'l', 'u', 'e'];
    assert(red@ =~= seq!['r', 'e', 'd']);
    assert(green@ =~= seq!['g', 'r', 'e', 'e', 'n']);
    assert(blue@ =~= seq!['b', 'l', 'u', 'e']);
    let mut cv: (u32, u32, u32) = (0, 0, 0);
    let mut i: usize = 0;
    while i < ps.len()
        invariant
            p == pieces(round@, ','),
            views(ps@) == p,
            round_ok(round@),
            red@ == seq!['r', 'e', 'd'],
            green@ == seq!['g', 'r', 'e', 'e', 'n'],
            blue@ == seq!['b', 'l', 'u', 'e'],
            0 <= i <= ps@.len(),
            (cv.0 as nat, cv.1 as nat, cv.2 as nat) == round_upto(p, i as int),
        decreases ps@.len() - i,
    {
        assert(ps@[i as int]@ == p[i as int]);
        assert(fits3(round_upto(p, i + 1)));
        let t = trim_chars(ps[i].as_slice());
        match find(t.as_slice(), ' ') {
            Some(k) => {
                let amt = slice_range(t.as_slice(), 0, k);
                let n_len = t.len();
                assert(k < n_len);
                let col = slice_from(t.as_slice(), k + 1);
                assert(amt@ =~= t@.take(k as int));
                assert(config_of(p[i as int]) matches Some((a, _)) ==> is_number(a));
                let num = parse_u128(amt.as_slice()).unwrap();
                if eq_chars(&col, &red) {
                    cv.0 = (cv.0 as u128 + num) as u32;
                } else if eq_chars(&col, &green) {
                    cv.1 = (cv.1 as u128 + num) as u32;
                } else if eq_chars(&col, &blue) {
                    cv.2 = (cv.2 as u128 + num) as u32;
                }
            },
            None => {},
        }
        i += 1;
    }
    cv
}

impl Game {
    /// Reads a game line: `Game <id>: <round>; <round>; ...`, each round a list of counts
    /// `<number> <colour>` split by commas.
    pub fn new(input: String) -> (r: Game)
        requires
            game_ok(input@),
        ensures
            r.id == game_id(input@),
            (r.mins.0 as nat, r.mins.1 as nat, r.mins.2 as nat) == game_mins(input@),
            r.power == game_power(input@),
            r.valid == game_valid(input@),
    {
        let cs = chars_of(input.as_str());
        Game::from_chars(&cs)
    }

    /// Reads a game line given as characters.
    pub fn from_chars(cs: &Vec<char>) -> (r: Game)
        requires
            game_ok(cs@),
        ensures
            r.id == game_id(cs@),
            (r.mins.0 as nat, r.mins.1 as nat, r.mins.2 as nat) == game_mins(cs@),
            r.power == game_power(cs@),
            r.valid == game_valid(cs@),
    {
        let colon = find(cs.as_slice(), ':').unwrap();
        let n_len = cs.len();
        assert(colon < n_len);
        let id_part = slice_range(cs.as_slice(), 0, colon);
        assert(id_part@ =~= before_first(cs@, ':'));
        let digits = slice_from(id_part.as_slice(), 5);
        assert(digits@ =~= before_first(cs@, ':').skip(5));
        let id = parse_u128(digits.as_slice()).unwrap() as u32;
        let rest = slice_from(cs.as_slice(), colon + 1);
        let rs = split_chars(rest.as_slice(), ';');
        let ghost r = rounds(cs@);
        let mut mins: (u32, u32, u32) = (0, 0, 0);
        let mut valid = true;
        let mut i: usize = 0;
        while i < rs.len()
            invariant
                r == rounds(cs@),
                views(rs@) == r,
                game_ok(cs@),
                0 <= i <= rs@.len(),
                ((mins.0 as nat, mins.1 as nat, mins.2 as nat), valid) == game_upto(r, i as int),
            decreases rs@.len() - i,
        {
            assert(rs@[i as int]@ == r[i as int]);
            assert(round_ok(r[i as int]));
            let cv = round_of(rs[i].as_slice());
            mins = (
                if mins.0 < cv.0 { cv.0 } else { mins.0 },
                if mins.1 < cv.1 { cv.1 } else { mins.1 },
                if mins.2 < cv.2 { cv.2 } else { mins.2 },
            );
            if valid {
                valid = cv.0 <= CUBE_CONFIG.0 && cv.1 <= CUBE_CONFIG.1 && cv.2 <= CUBE_CONFIG.2;
            }
            i += 1;
        }
        let power = mins.0 * mins.1 * mins.2;
        Game { id, mins, power, valid }
    }
}

pub open spec fn sum_valid_ids(ls: Seq<Seq<char>>, n: int) -> nat
    decreases n,
{
    if n <= 0 {
        0
    } else {
        sum_valid_ids(ls, n - 1) + if game_valid(ls[n - 1]) {
            game_id(ls[n - 1])
        } else {
            0
        }
    }
}

pub open spec fn sum_powers(ls: Seq<Seq<char>>, n: int) -> nat
    decreases n,
{
    if n <= 0 {
        0
    } else {
        sum_powers(ls, n - 1) + game_power(ls[n - 1])
    }
}

proof fn lemma_ids_mono(ls: Seq<Seq<char>>, n: int, m: int)
    requires
        0 <= n <= m,
    ensures
        sum_valid_ids(ls, n) <= sum_valid_ids(ls, m),
    decreases m,
{
    if m > n {
        lemma_ids_mono(ls, n, m - 1);
    }
}

proof fn lemma_powers_mono(ls: Seq<Seq<char>>, n: int, m: int)
    requires
        0 <= n <= m,
    ensures
        sum_powers(ls, n) <= sum_powers(ls, m),
    decreases m,
{
    if m > n {
        lemma_powers_mono(ls, n, m - 1);
    }
}

/// Every line is a game, and both totals fit in 32 bits.
pub open spec fn games_ok(ls: Seq<Seq<char>>) -> bool {
    &&& forall|i: int| 0 <= i < ls.len() ==> game_ok(#[trigger] ls[i])
    &&& sum_valid_ids(ls, ls.len() as int) <= u32::MAX
    &&& sum_powers(ls, ls.len() as int) <= u32::MAX
}

fn tally(ls: &Vec<Vec<char>>) -> (r: (u32, u32))
    requires
        games_ok(views(ls@)),
    ensures
        r.0 == sum_valid_ids(views(ls@), ls@.len() as int),
        r.1 == sum_powers(views(ls@), ls@.len() as int),
{
    let ghost v = views(ls@);
    let mut ids: u32 = 0;
    let mut powers: u32 = 0;
    let mut i: usize = 0;
    while i < ls.len()
        invariant
            v == views(ls@),
            games_ok(v),
            0 <= i <= ls@.len(),
            ids == sum_valid_ids(v, i as int),
            powers == sum_powers(v, i as int),
        decreases ls@.len() - i,
    {
        assert(ls@[i as int]@ == v[i as int]);
        assert(game_ok(v[i as int]));
        let game = Game::from_chars(&ls[i]);
        proof {
            lemma_ids_mono(v, i + 1, v.len() as int);
            lemma_powers_mono(v, i + 1, v.len() as int);
        }
        if game.valid {
            ids = ids + game.id;
        }
        powers = powers + game.power;
        i += 1;
    }
    (ids, powers)
}

/// The sum of the numbers of the games that the bag allows.
pub fn part1(input: Vec<String>) -> (r: u32)
    requires
        games_ok(strings(input@)),
    ensures
        r == sum_valid_ids(strings(input@), input@.len() as int),
{
    let ls = to_char_lines(&input);
    tally(&ls).0
}

/// The sum of the powers of the fewest cubes each game needs.
pub fn part2(input: Vec<String>) -> (r: u32)
    requires
        games_ok(strings(input@)),
    ensures
        r == sum_powers(strings(input@), input@.len() as int),
{
    let ls = to_char_lines(&input);
    tally(&ls).1
}

/// Both answers for the games in `input`, one per line.
pub fn solve_day(input: &str) -> (r: ReturnSize)
    requires
        games_ok(lines(input@)),
    ensures
        r == ReturnSize::U32(
            (
                sum_valid_ids(lines(input@), lines(input@).len() as int) as u32,
                sum_powers(lines(input@), lines(input@).len() as int) as u32,
            ),
        ),
{
    let cs = chars_of(input);
    let ls = lines_of(cs.as_slice());
    ReturnSize::U32(tally(&ls))
}

} // verus!
