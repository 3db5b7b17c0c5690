//! Walking a network of left/right nodes by a cycled list of directions.
use vstd::prelude::*;

use crate::text::{after_pat, after_seq, before_pat, before_seq, chars_of, find_pat, pieces, split_chars, strip_end, strip_end_chars, views};
use crate::ReturnSize;

verus! {

/// The greatest common divisor, by Euclid's rule.
pub open spec fn gcd_spec(a: nat, b: nat) -> nat
    decreases b,
{
    if b == 0 {
        a
    } else {
        gcd_spec(b, a % b)
    }
}

/// The least common multiple as this module computes it: `a / gcd(a, b) * b`.
pub open spec fn lcm_spec(a: nat, b: nat) -> nat {
    a / gcd_spec(a, b) * b
}

/// The least common multiple of the first `n` numbers, starting from one.
pub open spec fn lcm_fold(ns: Seq<nat>, n: int) -> nat
    decreases n,
{
    if n <= 0 {
        1
    } else {
        lcm_spec(lcm_fold(ns, n - 1), ns[n - 1])
    }
}

pub open spec fn unsigned(v: Seq<usize>) -> Seq<nat> {
    v.map_values(|x: usize| x as nat)
}

/// No step of the fold takes the multiple of two zeros, and every step fits in `usize`.
pub open spec fn lcm_ok(ns: Seq<nat>) -> bool {
    forall|k: int| 0 <= k < ns.len() ==> !(#[trigger] lcm_fold(ns, k) == 0 && ns[k] == 0) && lcm_fold(ns, k + 1) <= usize::MAX
}

proof fn lemma_gcd_positive(a: nat, b: nat)
    requires
        a > 0 || b > 0,
    ensures
        gcd_spec(a, b) > 0,
    decreases b,
{
    if b > 0 {
        lemma_gcd_positive(b, a % b);
    }
}

/// The greatest common divisor of `a` and `b`.
pub fn gcd(a: usize, b: usize) -> (r: usize)
    ensures
        r == gcd_spec(a as nat, b as nat),
    decreases b,
{
    if b == 0 {
        a
    } else {
        gcd(b, a % b)
    }
}

/// The least common multiple of `a` and `b`, dividing before multiplying.
pub fn lcm(a: usize, b: usize) -> (r: usize)
    requires
        a > 0 || b > 0,
        lcm_spec(a as nat, b as nat) <= usize::MAX,
    ensures
        r == lcm_spec(a as nat, b as nat),
{
    proof {
        lemma_gcd_positive(a as nat, b as nat);
    }
    let g = gcd(a, b);
    assert(a / g <= a) by (nonlinear_arith)
        requires
            g > 0,
    ;
    a / g * b
}

/// The least common multiple of all of `numbers`.
pub fn lcm_of_vec(numbers: Vec<usize>) -> (r: usize)
    requires
        lcm_ok(unsigned(numbers@)),
    ensures
        r == lcm_fold(unsigned(numbers@), numbers@.len() as int),
{
    let ghost ns = unsigned(numbers@);
    let mut acc: usize = 1;
    let mut i: usize = 0;
    while i < numbers.len()
        invariant
            ns == unsigned(numbers@),
            lcm_ok(ns),
            0 <= i <= numbers@.len(),
            acc == lcm_fold(ns, i as int),
        decreases numbers@.len() - i,
    {
        assert(!(lcm_fold(ns, i as int) == 0 && ns[i as int] == 0));
        assert(ns[i as int] == numbers@[i as int] as nat);
        acc = lcm(acc, numbers[i]);
        i += 1;
    }
    acc
}

pub open spec fn eq_sep() -> Seq<char> {
    seq![' ', '=', ' ', '(']
}

pub open spec fn comma_sep() -> Seq<char> {
    seq![',', ' ']
}

/// The node a line names, and its left and right successors: `AAA = (BBB, CCC)`.
pub open spec fn entry_of(line: Seq<char>) -> (Seq<char>, Seq<char>, Seq<char>) {
    let paths = strip_end(before_pat(after_pat(line, eq_sep()), eq_sep()), ')');
    (
        before_pat(line, eq_sep()),
        before_pat(paths, comma_sep()),
        before_pat(after_pat(paths, comma_sep()), comma_sep()),
    )
}

pub open spec fn entry_ok(line: Seq<char>) -> bool {
    &&& find_pat(line, eq_sep()) is Some
    &&& find_pat(strip_end(before_pat(after_pat(line, eq_sep()), eq_sep()), ')'), comma_sep()) is Some
}

pub type Entry = (Vec<char>, Vec<char>, Vec<char>);

pub open spec fn entries(v: Seq<Entry>) -> Seq<(Seq<char>, Seq<char>, Seq<char>)> {
    v.map_values(|e: Entry| (e.0@, e.1@, e.2@))
}

/// The successors of `key`: those of the last entry naming it.
pub open spec fn lookup(es: Seq<(Seq<char>, Seq<char>, Seq<char>)>, key: Seq<char>) -> Option<(Seq<char>, Seq<char>)>
    decreases es.len(),
{
    if es.len() == 0 {
        None
    } else if es.last().0 == key {
        Some((es.last().1, es.last().2))
    } else {
        lookup(es.drop_last(), key)
    }
}

/// The node after `node` in direction `d`, if `node` is known and `d` is `L` or `R`.
pub open spec fn next_node(es: Seq<(Seq<char>, Seq<char>, Seq<char>)>, node: Seq<char>, d: char) -> Option<Seq<char>> {
    match lookup(es, node) {
        Some((l, r)) => if d == 'L' {
            Some(l)
        } else if d == 'R' {
            Some(r)
        } else {
            None
        },
        None => None,
    }
}

/// Where `k` steps from `start` lead, cycling through `dirs`.
pub open spec fn walk(es: Seq<(Seq<char>, Seq<char>, Seq<char>)>, start: Seq<char>, dirs: Seq<char>, k: nat) -> Option<Seq<char>>
    decreases k,
{
    if k == 0 {
        Some(start)
    } else {
        match walk(es, start, dirs, (k - 1) as nat) {
            Some(n) => next_node(es, n, dirs[(k - 1) % (dirs.len() as int)]),
            None => None,
        }
    }
}

/// Accepts the nodes whose names end in `Z`.
pub open spec fn z_end() -> spec_fn(Seq<char>) -> bool {
    |n: Seq<char>| ends_in(n, 'Z')
}

/// Accepts the node named `end`.
pub open spec fn named(end: Seq<char>) -> spec_fn(Seq<char>) -> bool {
    |n: Seq<char>| n == end
}

/// A node whose name ends in `c`.
pub open spec fn ends_in(n: Seq<char>, c: char) -> bool {
    n.len() > 0 && n.last() == c
}

/// After `k` steps the walk stands on a node that `hit` accepts.
pub open spec fn lands(es: Seq<(Seq<char>, Seq<char>, Seq<char>)>, start: Seq<char>, dirs: Seq<char>, k: nat, hit: spec_fn(Seq<char>) -> bool) -> bool {
    match walk(es, start, dirs, k) {
        Some(n) => hit(n),
        None => false,
    }
}

/// After `k` steps the walk stands on a node for the first time that `hit` accepts.
pub open spec fn first_hit(es: Seq<(Seq<char>, Seq<char>, Seq<char>)>, start: Seq<char>, dirs: Seq<char>, k: nat, hit: spec_fn(Seq<char>) -> bool) -> bool {
    &&& k >= 1
    &&& lands(es, start, dirs, k, hit)
    &&& forall|j: nat| 1 <= j < k ==> !#[trigger] lands(es, start, dirs, j, hit)
}

proof fn lemma_walk_stuck(es: Seq<(Seq<char>, Seq<char>, Seq<char>)>, start: Seq<char>, dirs: Seq<char>, k: nat, j: nat)
    requires
        walk(es, start, dirs, k) is None,
        k <= j,
    ensures
        walk(es, start, dirs, j) is None,
    decreases j,
{
    if j > k {
        lemma_walk_stuck(es, start, dirs, k, (j - 1) as nat);
    }
}

/// Reads the network: one entry per line.
pub fn generate_map(steps: &str) -> (r: Vec<Entry>)
    requires
        forall|i: int| 0 <= i < pieces(steps@, '\n').len() ==> entry_ok(#[trigger] pieces(steps@, '\n')[i]),
    ensures
        entries(r@) == pieces(steps@, '\n').map_values(|l: Seq<char>| entry_of(l)),
{
    let cs = chars_of(steps);
    map_of(&cs)
}

fn map_of(cs: &Vec<char>) -> (r: Vec<Entry>)
    requires
        forall|i: int| 0 <= i < pieces(cs@, '\n').len() ==> entry_ok(#[trigger] pieces(cs@, '\n')[i]),
    ensures
        entries(r@) == pieces(cs@, '\n').map_values(|l: Seq<char>| entry_of(l)),
{
    let ls = split_chars(cs.as_slice(), '\n');
    let ghost p = pieces(cs@, '\n');
    let eq = vec![' ', '=', ' ', '('];
    let comma = vec![',', ' '];
    assert(eq@ =~= eq_sep());
    assert(comma@ =~= comma_sep());
    let mut r: Vec<Entry> = Vec::new();
    let mut i: usize = 0;
    while i < ls.len()
        invariant
            p == pieces(cs@, '\n'),
            views(ls@) == p,
            forall|i: int| 0 <= i < p.len() ==> entry_ok(#[trigger] p[i]),
            eq@ == eq_sep(),
            comma@ == comma_sep(),
            0 <= i <= ls@.len(),
            entries(r@) == p.map_values(|l: Seq<char>| entry_of(l)).take(i as int),
        decreases ls@.len() - i,
    {
        let line = &ls[i];
        assert(line@ == p[i as int]);
        let node = before_seq(line.as_slice(), eq.as_slice());
        let rest = after_seq(line.as_slice(), eq.as_slice());
        let part = before_seq(rest.as_slice(), eq.as_slice());
        let paths = strip_end_chars(part.as_slice(), ')');
        let left = before_seq(paths.as_slice(), comma.as_slice());
        let tail = after_seq(paths.as_slice(), comma.as_slice());
        let right = before_seq(tail.as_slice(), comma.as_slice());
        let ghost r0 = r@;
        r.push((node, left, right));
        assert(entries(r@) =~= entries(r0).push(entry_of(p[i as int])));
        assert(p.map_values(|l: Seq<char>| entry_of(l)).take(i + 1) =~= p.map_values(|l: Seq<char>| entry_of(l)).take(i as int).push(entry_of(p[i as int])));
        i += 1;
    }
    assert(p.map_values(|l: Seq<char>| entry_of(l)).take(i as int) =~= p.map_values(|l: Seq<char>| entry_of(l)));
    r
}

fn same(a: &Vec<char>, b: &Vec<char>) -> (r: bool)
    ensures
        r == (a@ == b@),
{
    if a.len() != b.len() {
        return false;
    }
    let mut i: usize = 0;
    while i < a.len()
        invariant
            a@.len() == b@.len(),
            0 <= i <= a@.len(),
            forall|k: int| 0 <= k < i ==> a@[k] == b@[k],
        decreases a@.len() - i,
    {
        if a[i] != b[i] {
            return false;
        }
        i += 1;
    }
    assert(a@ =~= b@);
    true
}

fn step(map: &Vec<Entry>, node: &Vec<char>, d: char) -> (r: Option<Vec<char>>)
    ensures
        r matches Some(n) ==> next_node(entries(map@), node@, d) == Some(n@),
        r is None ==> next_node(entries(map@), node@, d) is None,
{
    let ghost es = entries(map@);
    let mut i: usize = map.len();
    assert(es.take(i as int) =~= es);
    while i > 0
        invariant
            es == entries(map@),
            0 <= i <= map@.len(),
            lookup(es, node@) == lookup(es.take(i as int), node@),
        decreases i,
    {
        let e = &map[i - 1];
        assert(es.take(i as int).drop_last() =~= es.take(i - 1));
        assert(es.take(i as int).last() == (e.0@, e.1@, e.2@));
        if same(&e.0, node) {
            if d == 'L' {
                return Some(e.1.clone());
            } else if d == 'R' {
                return Some(e.2.clone());
            } else {
                return None;
            }
        }
        i -= 1;
    }
    None
}

/// The number of steps from `start` until the walk first stands on a node that `end`
/// names, cycling through `directions`; zero where there are no directions. `None` where
/// the walk meets an unknown node or direction first, or takes more than `usize::MAX`
/// steps.
pub fn steps_to_node(start: &Vec<char>, end: &Vec<char>, directions: &Vec<char>, map: &Vec<Entry>) -> (r: Option<usize>)
    ensures
        directions@.len() == 0 ==> r == Some(0usize),
        directions@.len() > 0 ==> (r matches Some(k) ==> first_hit(entries(map@), start@, directions@, k as nat, named(end@))),
        directions@.len() > 0 ==> (r is None ==> forall|j: nat| 1 <= j <= usize::MAX ==> #[trigger] walk(entries(map@), start@, directions@, j) != Some(end@)),
{
    if directions.len() == 0 {
        return Some(0);
    }
    let ghost es = entries(map@);
    let mut current = start.clone();
    assert(current@ =~= start@);
    let mut steps: usize = 0;
    loop
        invariant
            es == entries(map@),
            directions@.len() > 0,
            walk(es, start@, directions@, steps as nat) == Some(current@),
            forall|j: nat| 1 <= j <= steps ==> #[trigger] walk(es, start@, directions@, j) != Some(end@),
        decreases usize::MAX - steps,
    {
        if steps == usize::MAX {
            return None;
        }
        let d = directions[steps % directions.len()];
        steps += 1;
        match step(map, &current, d) {
            Some(n) => {
                current = n;
            },
            None => {
                assert forall|j: nat| 1 <= j <= usize::MAX implies #[trigger] walk(es, start@, directions@, j) != Some(end@) by {
                    if j >= steps {
                        lemma_walk_stuck(es, start@, directions@, steps as nat, j);
                    }
                }
                return None;
            },
        }
        if same(&current, end) {
            return Some(steps);
        }
    }
}

/// The number of steps from `start` until the walk first stands on a node whose name
/// ends in `Z`; as for [`steps_to_node`] otherwise.
pub fn steps_to_z(start: &Vec<char>, directions: &Vec<char>, map: &Vec<Entry>) -> (r: Option<usize>)
    ensures
        directions@.len() == 0 ==> r == Some(0usize),
        directions@.len() > 0 ==> (r matches Some(k) ==> first_hit(entries(map@), start@, directions@, k as nat, z_end())),
        directions@.len() > 0 ==> (r is None ==> forall|j: nat| 1 <= j <= usize::MAX ==> !#[trigger] lands(entries(map@), start@, directions@, j, z_end())),
{
    if directions.len() == 0 {
        return Some(0);
    }
    let ghost es = entries(map@);
    let mut current = start.clone();
    assert(current@ =~= start@);
    let mut steps: usize = 0;
    loop
        invariant
            es == entries(map@),
            directions@.len() > 0,
            walk(es, start@, directions@, steps as nat) == Some(current@),
            forall|j: nat| 1 <= j <= steps ==> !#[trigger] lands(es, start@, directions@, j, z_end()),
        decreases usize::MAX - steps,
    {
        if steps == usize::MAX {
            return None;
        }
        let d = directions[steps % directions.len()];
        steps += 1;
        match step(map, &current, d) {
            Some(n) => {
                current = n;
            },
            None => {
                assert forall|j: nat| 1 <= j <= usize::MAX implies !#[trigger] lands(es, start@, directions@, j, z_end()) by {
                    if j >= steps {
                        lemma_walk_stuck(es, start@, directions@, steps as nat, j);
                    }
                }
                return None;
            },
        }
        let n = current.len();
        if n > 0 && current[n - 1] == 'Z' {
            return Some(steps);
        }
    }
}

pub open spec fn blank_line() -> Seq<char> {
    seq!['\n', '\n']
}

pub open spec fn directions_of(s: Seq<char>) -> Seq<char> {
    before_pat(s, blank_line())
}

pub open spec fn network_of(s: Seq<char>) -> Seq<(Seq<char>, Seq<char>, Seq<char>)> {
    pieces(after_pat(s, blank_line()), '\n').map_values(|l: Seq<char>| entry_of(l))
}

/// Directions, a blank line, then one network entry per line.
pub open spec fn network_ok(s: Seq<char>) -> bool {
    &&& find_pat(s, blank_line()) is Some
    &&& forall|i: int| 0 <= i < pieces(after_pat(s, blank_line()), '\n').len() ==> entry_ok(#[trigger] pieces(after_pat(s, blank_line()), '\n')[i])
}

/// The walk from `start` comes to a node that `hit` accepts within `usize::MAX` steps.
pub open spec fn arrives(es: Seq<(Seq<char>, Seq<char>, Seq<char>)>, start: Seq<char>, dirs: Seq<char>, hit: spec_fn(Seq<char>) -> bool) -> bool {
    exists|k: nat| 1 <= k <= usize::MAX && #[trigger] lands(es, start, dirs, k, hit)
}

pub open spec fn aaa() -> Seq<char> {
    seq!['A', 'A', 'A']
}

pub open spec fn zzz() -> Seq<char> {
    seq!['Z', 'Z', 'Z']
}

fn read_input(cs: &Vec<char>) -> (r: (Vec<char>, Vec<Entry>))
    requires
        network_ok(cs@),
    ensures
        r.0@ == directions_of(cs@),
        entries(r.1@) == network_of(cs@),
{
    let blank = vec!['\n', '\n'];
    assert(blank@ =~= blank_line());
    let dirs = before_seq(cs.as_slice(), blank.as_slice());
    let rest = after_seq(cs.as_slice(), blank.as_slice());
    let map = map_of(&rest);
    (dirs, map)
}

/// The number of steps from `AAA` to `ZZZ`.
pub fn part1(input: &str) -> (r: usize)
    requires
        network_ok(input@),
        directions_of(input@).len() > 0 ==> arrives(network_of(input@), aaa(), directions_of(input@), named(zzz())),
    ensures
        directions_of(input@).len() == 0 ==> r == 0,
        directions_of(input@).len() > 0 ==> first_hit(network_of(input@), aaa(), directions_of(input@), r as nat, named(zzz())),
{
    let cs = chars_of(input);
    let (dirs, map) = read_input(&cs);
    let start = vec!['A', 'A', 'A'];
    let end = vec!['Z', 'Z', 'Z'];
    assert(start@ =~= aaa());
    assert(end@ =~= zzz());
    match steps_to_node(&start, &end, &dirs, &map) {
        Some(k) => k,
        None => {
            proof {
                let hit = named(zzz());
                let k = choose|k: nat| 1 <= k <= usize::MAX && #[trigger] lands(network_of(input@), aaa(), directions_of(input@), k, hit);
                assert(walk(entries(map@), start@, dirs@, k) != Some(end@));
            }
            0
        },
    }
}

/// The names of the entries whose names end in `A`, of the first `n` entries.
pub open spec fn start_nodes(es: Seq<(Seq<char>, Seq<char>, Seq<char>)>, n: int) -> Seq<Seq<char>>
    decreases n,
{
    if n <= 0 {
        Seq::empty()
    } else if ends_in(es[n - 1].0, 'A') {
        start_nodes(es, n - 1).push(es[n - 1].0)
    } else {
        start_nodes(es, n - 1)
    }
}

/// The number of steps from `start` to a node ending in `Z`.
pub open spec fn z_steps(es: Seq<(Seq<char>, Seq<char>, Seq<char>)>, start: Seq<char>, dirs: Seq<char>) -> nat {
    choose|k: nat| #[trigger] first_hit(es, start, dirs, k, z_end())
}

proof fn lemma_first_hit_unique(es: Seq<(Seq<char>, Seq<char>, Seq<char>)>, start: Seq<char>, dirs: Seq<char>, k1: nat, k2: nat, hit: spec_fn(Seq<char>) -> bool)
    requires
        first_hit(es, start, dirs, k1, hit),
        first_hit(es, start, dirs, k2, hit),
    ensures
        k1 == k2,
{
    if k1 < k2 {
        assert(!lands(es, start, dirs, k1, hit));
    } else if k2 < k1 {
        assert(!lands(es, start, dirs, k2, hit));
    }
}

/// The walks from every start node all arrive at nodes ending in `Z`, and their least
/// common multiple can be taken in `usize`.
pub open spec fn ghosts_ok(s: Seq<char>) -> bool {
    let es = network_of(s);
    let starts = start_nodes(es, es.len() as int);
    &&& network_ok(s)
    &&& directions_of(s).len() > 0
    &&& forall|i: int| 0 <= i < starts.len() ==> arrives(es, #[trigger] starts[i], directions_of(s), z_end())
    &&& lcm_ok(starts.map_values(|st: Seq<char>| z_steps(es, st, directions_of(s))))
}

pub open spec fn part2_answer(s: Seq<char>) -> nat {
    let es = network_of(s);
    let starts = start_nodes(es, es.len() as int);
    lcm_fold(starts.map_values(|st: Seq<char>| z_steps(es, st, directions_of(s))), starts.len() as int)
}

/// The number of steps until the walks from all nodes ending in `A`, taken together, all
/// stand on nodes ending in `Z`: the least common multiple of their lengths.
pub fn part2(input: &str) -> (r: usize)
    requires
        ghosts_ok(input@),
    ensures
        r == part2_answer(input@),
{
    let cs = chars_of(input);
    let (dirs, map) = read_input(&cs);
    let ghost es = entries(map@);
    let ghost starts = start_nodes(es, es.len() as int);
    let ghost zs = starts.map_values(|st: Seq<char>| z_steps(es, st, dirs@));
    let mut min_steps: Vec<usize> = Vec::new();
    let mut count: usize = 0;
    let mut i: usize = 0;
    while i < map.len()
        invariant
            es == entries(map@),
            es == network_of(input@),
            dirs@ == directions_of(input@),
            ghosts_ok(input@),
            starts == start_nodes(es, es.len() as int),
            zs == starts.map_values(|st: Seq<char>| z_steps(es, st, dirs@)),
            0 <= i <= map@.len(),
            min_steps@.len() == start_nodes(es, i as int).len(),
            forall|k: int| 0 <= k < min_steps@.len() ==> #[trigger] min_steps@[k] as nat == z_steps(es, start_nodes(es, i as int)[k], dirs@),
        decreases map@.len() - i,
    {
        let e = &map[i];
        assert(es[i as int] == (e.0@, e.1@, e.2@));
        let n = e.0.len();
        if n > 0 && e.0[n - 1] == 'A' {
            proof {
                lemma_start_nodes_prefix(es, i + 1, es.len() as int);
                assert(start_nodes(es, i + 1).last() == e.0@);
                let idx = start_nodes(es, i + 1).len() - 1;
                assert(starts[idx] == e.0@);
                assert(arrives(es, starts[idx], dirs@, z_end()));
            }
            match steps_to_z(&e.0, &dirs, &map) {
                Some(k) => {
                    proof {
                        let hit = z_end();
                        let k2 = z_steps(es, e.0@, dirs@);
                        assert(first_hit(es, e.0@, dirs@, k as nat, hit));
                        lemma_first_hit_unique(es, e.0@, dirs@, k as nat, k2, hit);
                    }
                    min_steps.push(k);
                },
                None => {
                    proof {
                        let idx = start_nodes(es, i + 1).len() - 1;
                        let hit = z_end();
                        let j = choose|j: nat| 1 <= j <= usize::MAX && #[trigger] lands(es, starts[idx], dirs@, j, hit);
                        assert(!lands(es, e.0@, dirs@, j, hit));
                    }
                    min_steps.push(0);
                },
            }
        }
        i += 1;
    }
    assert(unsigned(min_steps@) =~= zs);
    lcm_of_vec(min_steps)
}

proof fn lemma_start_nodes_prefix(es: Seq<(Seq<char>, Seq<char>, Seq<char>)>, n: int, m: int)
    requires
        0 <= n <= m,
    ensures
        start_nodes(es, n).len() <= start_nodes(es, m).len(),
        forall|k: int| 0 <= k < start_nodes(es, n).len() ==> #[trigger] start_nodes(es, m)[k] == start_nodes(es, n)[k],
    decreases m,
{
    if m > n {
        lemma_start_nodes_prefix(es, n, m - 1);
    }
}

/// Both answers for the network in `input`.
pub fn solve_day(input: &str) -> (r: ReturnSize)
    requires
        ghosts_ok(input@),
        arrives(network_of(input@), aaa(), directions_of(input@), named(zzz())),
    ensures
        r is USIZE,
        r matches ReturnSize::USIZE((a, b)) ==> first_hit(network_of(input@), aaa(), directions_of(input@), a as nat, named(zzz())) && b == part2_answer(input@),
{
    ReturnSize::USIZE((part1(input), part2(input)))
}

} // verus!
