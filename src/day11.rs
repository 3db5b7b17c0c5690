//! Galaxy distances in an image whose empty rows and columns expand.
use vstd::prelude::*;

use crate::text::{chars_of, lines, lines_of, views};
use crate::ReturnSize;

verus! {

pub open spec fn abs(x: int) -> int {
    if x < 0 {
        -x
    } else {
        x
    }
}

/// The number of set flags of `s` at indices `lo` to `hi`, both included.
pub open spec fn count_set(s: Seq<bool>, lo: int, hi: int) -> nat
    decreases hi - lo + 1,
{
    if hi < lo {
        0
    } else {
        count_set(s, lo, hi - 1) + if s[hi] {
            1nat
        } else {
            0nat
        }
    }
}

pub open spec fn min(a: int, b: int) -> int {
    if a < b {
        a
    } else {
        b
    }
}

pub open spec fn max(a: int, b: int) -> int {
    if a < b {
        b
    } else {
        a
    }
}

/// The length of one axis of the path from `a` to `b`: the plain distance, plus
/// `factor - 1` for each empty line crossed (the ends included).
pub open spec fn axis_dist(a: int, b: int, empty: Seq<bool>, factor: int) -> int {
    abs(a - b) + (if a != b {
        count_set(empty, min(a, b), max(a, b)) as int
    } else {
        0
    }) * (factor - 1)
}

/// The distance between two galaxies (row, column) once the image has expanded.
pub open spec fn dist(a: (int, int), b: (int, int), rows: Seq<bool>, cols: Seq<bool>, factor: int) -> int {
    axis_dist(a.0, b.0, rows, factor) + axis_dist(a.1, b.1, cols, factor)
}

proof fn lemma_count_set_bound(s: Seq<bool>, lo: int, hi: int)
    ensures
        count_set(s, lo, hi) <= if hi < lo {
            0
        } else {
            hi - lo + 1
        },
    decreases hi - lo + 1,
{
    if hi >= lo {
        lemma_count_set_bound(s, lo, hi - 1);
    }
}

proof fn lemma_dist_nonneg(a: (int, int), b: (int, int), rows: Seq<bool>, cols: Seq<bool>, factor: int)
    requires
        factor >= 1,
    ensures
        axis_dist(a.0, b.0, rows, factor) >= 0,
        axis_dist(a.1, b.1, cols, factor) >= 0,
{
    let x = (if a.0 != b.0 { count_set(rows, min(a.0, b.0), max(a.0, b.0)) as int } else { 0 });
    let y = (if a.1 != b.1 { count_set(cols, min(a.1, b.1), max(a.1, b.1)) as int } else { 0 });
    assert(x * (factor - 1) >= 0) by (nonlinear_arith)
        requires
            x >= 0,
            factor >= 1,
    ;
    assert(y * (factor - 1) >= 0) by (nonlinear_arith)
        requires
            y >= 0,
            factor >= 1,
    ;
}

fn count_between(flags: &Vec<bool>, lo: usize, hi: usize) -> (r: usize)
    requires
        lo <= hi < flags@.len(),
    ensures
        r == count_set(flags@, lo as int, hi as int),
{
    let len = flags.len();
    let mut n: usize = 0;
    let mut k: usize = lo;
    while k <= hi
        invariant
            lo <= k <= hi + 1,
            hi < len == flags@.len(),
            n == count_set(flags@, lo as int, k - 1),
            n <= k - lo,
        decreases hi + 1 - k,
    {
        if flags[k] {
            n += 1;
        }
        k += 1;
    }
    n
}

fn axis_distance(a: usize, b: usize, empty: &Vec<bool>, factor: i64) -> (r: i64)
    requires
        a < empty@.len(),
        b < empty@.len(),
        factor >= 1,
        axis_dist(a as int, b as int, empty@, factor as int) <= i64::MAX,
    ensures
        r == axis_dist(a as int, b as int, empty@, factor as int),
{
    let (lo, hi) = if a < b { (a, b) } else { (b, a) };
    let plain = hi - lo;
    let ghost x = (if a != b { count_set(empty@, lo as int, hi as int) as int } else { 0 });
    assert(x * (factor - 1) >= 0) by (nonlinear_arith)
        requires
            x >= 0,
            factor >= 1,
    ;
    if a == b || factor == 1 {
        assert(x * (factor - 1) == 0) by (nonlinear_arith)
            requires
                factor == 1 || x == 0,
        ;
        return plain as i64;
    }
    let expansion: usize = count_between(empty, lo, hi);
    assert(expansion <= i64::MAX) by {
        assert(expansion * (factor - 1) >= expansion) by (nonlinear_arith)
            requires
                factor >= 2,
        ;
    }
    assert(expansion * (factor - 1) <= i64::MAX);
    plain as i64 + (expansion as i64) * (factor - 1)
}

/// The distance between galaxies `a` and `b` (row, column) once every empty row and column
/// has grown `expansion_factor` times as wide.
pub fn manhattan_distance(
    a: (usize, usize),
    b: (usize, usize),
    empty_rows: &Vec<bool>,
    empty_cols: &Vec<bool>,
    expansion_factor: i64,
) -> (r: i64)
    requires
        a.0 < empty_rows@.len(),
        b.0 < empty_rows@.len(),
        a.1 < empty_cols@.len(),
        b.1 < empty_cols@.len(),
        expansion_factor >= 1,
        dist((a.0 as int, a.1 as int), (b.0 as int, b.1 as int), empty_rows@, empty_cols@, expansion_factor as int) <= i64::MAX,
    ensures
        r == dist((a.0 as int, a.1 as int), (b.0 as int, b.1 as int), empty_rows@, empty_cols@, expansion_factor as int),
{
    proof {
        lemma_dist_nonneg((a.0 as int, a.1 as int), (b.0 as int, b.1 as int), empty_rows@, empty_cols@, expansion_factor as int);
    }
    let row = axis_distance(a.0, b.0, empty_rows, expansion_factor);
    let col = axis_distance(a.1, b.1, empty_cols, expansion_factor);
    row + col
}

/// The galaxies in the first `n` places of `row` (number `r`), left to right.
pub open spec fn row_galaxies(row: Seq<char>, r: int, n: int) -> Seq<(int, int)>
    decreases n,
{
    if n <= 0 {
        Seq::empty()
    } else {
        let p = row_galaxies(row, r, n - 1);
        if row[n - 1] == '#' {
            p.push((r, n - 1))
        } else {
            p
        }
    }
}

/// The galaxies of the first `n` rows, in reading order.
pub open spec fn galaxies(grid: Seq<Seq<char>>, n: int) -> Seq<(int, int)>
    decreases n,
{
    if n <= 0 {
        Seq::empty()
    } else {
        galaxies(grid, n - 1) + row_galaxies(grid[n - 1], n - 1, grid[n - 1].len() as int)
    }
}

pub open spec fn row_empty(grid: Seq<Seq<char>>, r: int) -> bool {
    forall|c: int| 0 <= c < grid[r].len() ==> #[trigger] grid[r][c] != '#'
}

pub open spec fn col_empty(grid: Seq<Seq<char>>, c: int) -> bool {
    forall|r: int| 0 <= r < grid.len() ==> #[trigger] grid[r][c] != '#'
}

pub open spec fn empty_rows(grid: Seq<Seq<char>>) -> Seq<bool> {
    Seq::new(grid.len(), |r: int| row_empty(grid, r))
}

pub open spec fn empty_cols(grid: Seq<Seq<char>>) -> Seq<bool> {
    Seq::new(grid[0].len(), |c: int| col_empty(grid, c))
}

/// The sum of the distances from galaxy `j` to each of the galaxies before index `k`.
pub open spec fn sum_to(g: Seq<(int, int)>, j: int, k: int, rows: Seq<bool>, cols: Seq<bool>, f: int) -> int
    decreases k,
{
    if k <= 0 {
        0
    } else {
        sum_to(g, j, k - 1, rows, cols, f) + dist(g[k - 1], g[j], rows, cols, f)
    }
}

/// The sum of the distances over all pairs of the first `n` galaxies.
pub open spec fn sum_pairs(g: Seq<(int, int)>, n: int, rows: Seq<bool>, cols: Seq<bool>, f: int) -> int
    decreases n,
{
    if n <= 0 {
        0
    } else {
        sum_pairs(g, n - 1, rows, cols, f) + sum_to(g, n - 1, n - 1, rows, cols, f)
    }
}

/// The sum of the expanded distances between all pairs of galaxies of `grid`.
pub open spec fn total_distance(grid: Seq<Seq<char>>, f: int) -> int {
    let g = galaxies(grid, grid.len() as int);
    sum_pairs(g, g.len() as int, empty_rows(grid), empty_cols(grid), f)
}

/// A nonempty image whose rows all have the same length.
pub open spec fn image_ok(grid: Seq<Seq<char>>) -> bool {
    grid.len() > 0 && forall|r: int| 0 <= r < grid.len() ==> #[trigger] grid[r].len() == grid[0].len()
}

proof fn lemma_sum_to_mono(g: Seq<(int, int)>, j: int, k: int, m: int, rows: Seq<bool>, cols: Seq<bool>, f: int)
    requires
        f >= 1,
        0 <= k <= m,
    ensures
        0 <= sum_to(g, j, k, rows, cols, f) <= sum_to(g, j, m, rows, cols, f),
    decreases m,
{
    if m > k {
        lemma_sum_to_mono(g, j, k, m - 1, rows, cols, f);
        lemma_dist_nonneg(g[m - 1], g[j], rows, cols, f);
    } else if k > 0 {
        lemma_sum_to_mono(g, j, k - 1, k - 1, rows, cols, f);
        lemma_dist_nonneg(g[k - 1], g[j], rows, cols, f);
    }
}

proof fn lemma_sum_pairs_mono(g: Seq<(int, int)>, n: int, m: int, rows: Seq<bool>, cols: Seq<bool>, f: int)
    requires
        f >= 1,
        0 <= n <= m,
    ensures
        0 <= sum_pairs(g, n, rows, cols, f) <= sum_pairs(g, m, rows, cols, f),
    decreases m,
{
    if m > n {
        lemma_sum_pairs_mono(g, n, m - 1, rows, cols, f);
        lemma_sum_to_mono(g, m - 1, 0, m - 1, rows, cols, f);
    } else if n > 0 {
        lemma_sum_pairs_mono(g, n - 1, n - 1, rows, cols, f);
        lemma_sum_to_mono(g, n - 1, 0, n - 1, rows, cols, f);
    }
}

fn find_empty(grid: &Vec<Vec<char>>) -> (r: (Vec<bool>, Vec<bool>))
    requires
        image_ok(views(grid@)),
    ensures
        r.0@ == empty_rows(views(grid@)),
        r.1@ == empty_cols(views(grid@)),
{
    let ghost gv = views(grid@);
    let cols = grid[0].len();
    let mut er: Vec<bool> = Vec::new();
    let mut r: usize = 0;
    while r < grid.len()
        invariant
            gv == views(grid@),
            0 <= r <= grid@.len(),
            er@ == empty_rows(gv).take(r as int),
        decreases grid@.len() - r,
    {
        let row = &grid[r];
        assert(row@ == gv[r as int]);
        let mut c: usize = 0;
        let mut empty = true;
        while c < row.len()
            invariant
                0 <= c <= row@.len(),
                empty == forall|k: int| 0 <= k < c ==> #[trigger] row@[k] != '#',
            decreases row@.len() - c,
        {
            if row[c] == '#' {
                empty = false;
            }
            c += 1;
        }
        er.push(empty);
        assert(er@ =~= empty_rows(gv).take(r + 1));
        r += 1;
    }
    assert(empty_rows(gv).take(r as int) =~= empty_rows(gv));
    let mut ec: Vec<bool> = Vec::new();
    let mut c: usize = 0;
    assert(gv[0] == grid@[0]@);
    while c < cols
        invariant
            gv == views(grid@),
            image_ok(gv),
            cols == gv[0].len(),
            0 <= c <= cols,
            ec@ == empty_cols(gv).take(c as int),
        decreases cols - c,
    {
        let mut r: usize = 0;
        let mut empty = true;
        while r < grid.len()
            invariant
                gv == views(grid@),
                image_ok(gv),
                c < cols == gv[0].len(),
                0 <= r <= grid@.len(),
                empty == forall|k: int| 0 <= k < r ==> #[trigger] gv[k][c as int] != '#',
            decreases grid@.len() - r,
        {
            assert(grid@[r as int]@ == gv[r as int]);
            assert(gv[r as int].len() == cols);
            if grid[r][c] == '#' {
                empty = false;
            }
            r += 1;
        }
        ec.push(empty);
        assert(ec@ =~= empty_cols(gv).take(c + 1));
        c += 1;
    }
    assert(empty_cols(gv).take(c as int) =~= empty_cols(gv));
    (er, ec)
}

pub open spec fn coords(v: Seq<(usize, usize)>) -> Seq<(int, int)> {
    v.map_values(|p: (usize, usize)| (p.0 as int, p.1 as int))
}

fn find_galaxies(grid: &Vec<Vec<char>>) -> (r: Vec<(usize, usize)>)
    ensures
        coords(r@) == galaxies(views(grid@), grid@.len() as int),
        forall|k: int| 0 <= k < r@.len() ==> #[trigger] r@[k].0 < grid@.len() && r@[k].1 < grid@[r@[k].0 as int]@.len(),
{
    let ghost gv = views(grid@);
    let mut out: Vec<(usize, usize)> = Vec::new();
    let mut r: usize = 0;
    while r < grid.len()
        invariant
            gv == views(grid@),
            0 <= r <= grid@.len(),
            coords(out@) == galaxies(gv, r as int),
            forall|k: int| 0 <= k < out@.len() ==> #[trigger] out@[k].0 < grid@.len() && out@[k].1 < grid@[out@[k].0 as int]@.len(),
        decreases grid@.len() - r,
    {
        let row = &grid[r];
        assert(row@ == gv[r as int]);
        let ghost base = coords(out@);
        let mut c: usize = 0;
        while c < row.len()
            invariant
                gv == views(grid@),
                0 <= r < grid@.len(),
                row@ == gv[r as int],
                row@ == grid@[r as int]@,
                0 <= c <= row@.len(),
                coords(out@) == base + row_galaxies(row@, r as int, c as int),
                forall|k: int| 0 <= k < out@.len() ==> #[trigger] out@[k].0 < grid@.len() && out@[k].1 < grid@[out@[k].0 as int]@.len(),
            decreases row@.len() - c,
        {
            if row[c] == '#' {
                let ghost o0 = out@;
                out.push((r, c));
                assert(coords(out@) =~= coords(o0).push((r as int, c as int)));
            }
            assert(coords(out@) =~= base + row_galaxies(row@, r as int, c + 1));
            c += 1;
        }
        r += 1;
    }
    out
}

/// The sum of the distances between all pairs of galaxies, once every empty row and column
/// has grown `expansion_factor` times as wide.
pub fn solve(input: &str, expansion_factor: i64) -> (r: i64)
    requires
        image_ok(lines(input@)),
        expansion_factor >= 1,
        total_distance(lines(input@), expansion_factor as int) <= i64::MAX,
    ensures
        r == total_distance(lines(input@), expansion_factor as int),
{
    let cs = chars_of(input);
    let grid = lines_of(cs.as_slice());
    let ghost gv = views(grid@);
    let (empty_r, empty_c) = find_empty(&grid);
    let gal = find_galaxies(&grid);
    let ghost g = coords(gal@);
    let ghost f = expansion_factor as int;
    let mut total: i64 = 0;
    let mut j: usize = 0;
    while j < gal.len()
        invariant
            gv == lines(input@),
            gv == views(grid@),
            image_ok(gv),
            g == coords(gal@),
            g == galaxies(gv, gv.len() as int),
            empty_r@ == empty_rows(gv),
            empty_c@ == empty_cols(gv),
            f == expansion_factor as int,
            f >= 1,
            sum_pairs(g, g.len() as int, empty_r@, empty_c@, f) <= i64::MAX,
            forall|k: int| 0 <= k < gal@.len() ==> #[trigger] gal@[k].0 < grid@.len() && gal@[k].1 < grid@[gal@[k].0 as int]@.len(),
            0 <= j <= gal@.len(),
            total == sum_pairs(g, j as int, empty_r@, empty_c@, f),
        decreases gal@.len() - j,
    {
        let mut i: usize = 0;
        while i < j
            invariant
                g == coords(gal@),
                image_ok(gv),
                gv == views(grid@),
                empty_r@ == empty_rows(gv),
                empty_c@ == empty_cols(gv),
                f == expansion_factor as int,
                f >= 1,
                sum_pairs(g, g.len() as int, empty_r@, empty_c@, f) <= i64::MAX,
                forall|k: int| 0 <= k < gal@.len() ==> #[trigger] gal@[k].0 < grid@.len() && gal@[k].1 < grid@[gal@[k].0 as int]@.len(),
                0 <= i <= j < gal@.len(),
                total == sum_pairs(g, j as int, empty_r@, empty_c@, f) + sum_to(g, j as int, i as int, empty_r@, empty_c@, f),
            decreases j - i,
        {
            proof {
                lemma_sum_to_mono(g, j as int, i + 1, j as int, empty_r@, empty_c@, f);
                lemma_sum_pairs_mono(g, j + 1, g.len() as int, empty_r@, empty_c@, f);
                lemma_dist_nonneg(g[i as int], g[j as int], empty_r@, empty_c@, f);
                lemma_sum_pairs_mono(g, 0, j as int, empty_r@, empty_c@, f);
                lemma_sum_to_mono(g, j as int, 0, i as int, empty_r@, empty_c@, f);
                assert(gv[gal@[i as int].0 as int] == grid@[gal@[i as int].0 as int]@);
                assert(gv[gal@[j as int].0 as int] == grid@[gal@[j as int].0 as int]@);
                assert(g[i as int] == (gal@[i as int].0 as int, gal@[i as int].1 as int));
                assert(g[j as int] == (gal@[j as int].0 as int, gal@[j as int].1 as int));
            }
            let d = manhattan_distance(gal[i], gal[j], &empty_r, &empty_c, expansion_factor);
            total = total + d;
            i += 1;
        }
        j += 1;
    }
    total
}

/// Both answers for the image in `input`: galaxies apart with empty lines doubled, and with
/// them grown a million times.
pub fn solve_day(input: &str) -> (r: ReturnSize)
    requires
        image_ok(lines(input@)),
        total_distance(lines(input@), 2) <= i64::MAX,
        total_distance(lines(input@), 1000000) <= i64::MAX,
    ensures
        r == ReturnSize::I64((total_distance(lines(input@), 2) as i64, total_distance(lines(input@), 1000000) as i64)),
{
    ReturnSize::I64((solve(input, 2), solve(input, 1000000)))
}

} // verus!
