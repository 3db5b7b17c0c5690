//! Pipe maze: a grid of pipe segments holding one closed loop through a start cell.
use vstd::prelude::*;

use crate::text::{chars_of, lines, lines_of, views};
use crate::ReturnSize;

verus! {

/// The segment in one cell, named by the two directions it opens to.
#[derive(Clone, Copy, Debug, PartialEq, Eq, Structural)]
pub enum Pipe {
    Vertical,
    Horizontal,
    NorthEast,
    NorthWest,
    SouthWest,
    SouthEast,
    Start,
    Ground,
}

#[derive(Clone, Copy, Debug, PartialEq, Eq, Structural)]
pub enum Dir {
    North,
    South,
    East,
    West,
}

/// A cell: column, then row.
#[derive(Clone, Copy, Debug, PartialEq, Eq, Hash, Structural)]
pub struct Point(pub usize, pub usize);

/// Why a maze could not be read.
#[derive(Clone, Copy, Debug, PartialEq, Eq, Structural)]
pub enum MazeError {
    /// No cell holds the start marker.
    MissingStart,
    /// More than one cell holds the start marker.
    MultipleStarts,
    /// The start cell is not linked to exactly two of its neighbours.
    MalformedStart,
}

pub open spec fn pipe_of(c: char) -> Pipe {
    if c == '|' {
        Pipe::Vertical
    } else if c == '-' {
        Pipe::Horizontal
    } else if c == 'L' {
        Pipe::NorthEast
    } else if c == 'J' {
        Pipe::NorthWest
    } else if c == '7' {
        Pipe::SouthWest
    } else if c == 'F' {
        Pipe::SouthEast
    } else if c == 'S' {
        Pipe::Start
    } else {
        Pipe::Ground
    }
}

pub open spec fn opens(p: Pipe, d: Dir) -> bool {
    match p {
        Pipe::Vertical => d == Dir::North || d == Dir::South,
        Pipe::Horizontal => d == Dir::East || d == Dir::West,
        Pipe::NorthEast => d == Dir::North || d == Dir::East,
        Pipe::NorthWest => d == Dir::North || d == Dir::West,
        Pipe::SouthWest => d == Dir::South || d == Dir::West,
        Pipe::SouthEast => d == Dir::South || d == Dir::East,
        _ => false,
    }
}

pub open spec fn opposite(d: Dir) -> Dir {
    match d {
        Dir::North => Dir::South,
        Dir::South => Dir::North,
        Dir::East => Dir::West,
        Dir::West => Dir::East,
    }
}

/// The cell next to `(x, y)` in direction `d`; rows grow southwards.
pub open spec fn offset(x: int, y: int, d: Dir) -> (int, int) {
    match d {
        Dir::North => (x, y - 1),
        Dir::South => (x, y + 1),
        Dir::East => (x + 1, y),
        Dir::West => (x - 1, y),
    }
}

pub open spec fn view2<T>(v: Seq<Vec<T>>) -> Seq<Seq<T>> {
    v.map_values(|r: Vec<T>| r@)
}

pub open spec fn raw_grid(l: Seq<Seq<char>>) -> Seq<Seq<Pipe>> {
    l.map_values(|r: Seq<char>| r.map_values(|c: char| pipe_of(c)))
}

pub open spec fn in_grid<T>(g: Seq<Seq<T>>, x: int, y: int) -> bool {
    0 <= y < g.len() && 0 <= x < g[y].len()
}

pub open spec fn is_start(l: Seq<Seq<char>>, x: int, y: int) -> bool {
    in_grid(l, x, y) && l[y][x] == 'S'
}

pub open spec fn has_start(l: Seq<Seq<char>>) -> bool {
    exists|x: int, y: int| is_start(l, x, y)
}

pub open spec fn single_start(l: Seq<Seq<char>>) -> bool {
    forall|x1: int, y1: int, x2: int, y2: int|
        is_start(l, x1, y1) && is_start(l, x2, y2) ==> x1 == x2 && y1 == y2
}

pub open spec fn start_of(l: Seq<Seq<char>>) -> (int, int) {
    choose|x: int, y: int| is_start(l, x, y)
}

/// The neighbour of `(x, y)` towards `d` is in the grid and opens back towards `(x, y)`.
pub open spec fn links(g: Seq<Seq<Pipe>>, x: int, y: int, d: Dir) -> bool {
    let n = offset(x, y, d);
    in_grid(g, n.0, n.1) && opens(g[n.1][n.0], opposite(d))
}

/// The segment that opens exactly towards the directions that hold, if two of them do.
pub open spec fn shape_from(n: bool, s: bool, e: bool, w: bool) -> Option<Pipe> {
    if n && s && !e && !w {
        Some(Pipe::Vertical)
    } else if e && w && !n && !s {
        Some(Pipe::Horizontal)
    } else if n && e && !s && !w {
        Some(Pipe::NorthEast)
    } else if n && w && !s && !e {
        Some(Pipe::NorthWest)
    } else if s && w && !n && !e {
        Some(Pipe::SouthWest)
    } else if s && e && !n && !w {
        Some(Pipe::SouthEast)
    } else {
        None
    }
}

/// The shape that the start cell at `(x, y)` must have, from the neighbours that link to it.
pub open spec fn start_shape(g: Seq<Seq<Pipe>>, x: int, y: int) -> Option<Pipe> {
    shape_from(
        links(g, x, y, Dir::North),
        links(g, x, y, Dir::South),
        links(g, x, y, Dir::East),
        links(g, x, y, Dir::West),
    )
}

/// The maze that the text `s` describes: its grid, with the start cell given its inferred
/// shape, and the start cell.
pub open spec fn maze(s: Seq<char>) -> Result<(Seq<Seq<Pipe>>, (int, int)), MazeError> {
    let l = lines(s);
    if !has_start(l) {
        Err(MazeError::MissingStart)
    } else if !single_start(l) {
        Err(MazeError::MultipleStarts)
    } else {
        let p = start_of(l);
        let g = raw_grid(l);
        match start_shape(g, p.0, p.1) {
            None => Err(MazeError::MalformedStart),
            Some(shape) => Ok((g.update(p.1, g[p.1].update(p.0, shape)), p)),
        }
    }
}

/// `p` is the cell `(x, y)`.
pub open spec fn is_at(p: Option<Point>, x: int, y: int) -> bool {
    match p {
        Some(q) => q.0 == x && q.1 == y,
        None => false,
    }
}

fn pipe_from_char(c: char) -> (r: Pipe)
    ensures
        r == pipe_of(c),
{
    match c {
        '|' => Pipe::Vertical,
        '-' => Pipe::Horizontal,
        'L' => Pipe::NorthEast,
        'J' => Pipe::NorthWest,
        '7' => Pipe::SouthWest,
        'F' => Pipe::SouthEast,
        'S' => Pipe::Start,
        _ => Pipe::Ground,
    }
}

fn opens_exec(p: Pipe, d: Dir) -> (r: bool)
    ensures
        r == opens(p, d),
{
    match p {
        Pipe::Vertical => d == Dir::North || d == Dir::South,
        Pipe::Horizontal => d == Dir::East || d == Dir::West,
        Pipe::NorthEast => d == Dir::North || d == Dir::East,
        Pipe::NorthWest => d == Dir::North || d == Dir::West,
        Pipe::SouthWest => d == Dir::South || d == Dir::West,
        Pipe::SouthEast => d == Dir::South || d == Dir::East,
        _ => false,
    }
}

fn opposite_exec(d: Dir) -> (r: Dir)
    ensures
        r == opposite(d),
{
    match d {
        Dir::North => Dir::South,
        Dir::South => Dir::North,
        Dir::East => Dir::West,
        Dir::West => Dir::East,
    }
}

/// The cell next to `p` towards `d`, where that cell is in the grid.
fn neighbor(grid: &Vec<Vec<Pipe>>, p: Point, d: Dir) -> (r: Option<Point>)
    ensures
        r is Some <==> in_grid(view2(grid@), offset(p.0 as int, p.1 as int, d).0, offset(p.0 as int, p.1 as int, d).1),
        r matches Some(q) ==> (q.0 as int, q.1 as int) == offset(p.0 as int, p.1 as int, d),
{
    let Point(x, y) = p;
    let ghost g = view2(grid@);
    let (nx, ny) = match d {
        Dir::North => {
            if y == 0 {
                return None;
            }
            (x, y - 1)
        },
        Dir::South => {
            if y >= grid.len() {
                return None;
            }
            (x, y + 1)
        },
        Dir::East => {
            if y >= grid.len() || x >= grid[y].len() {
                return None;
            }
            (x + 1, y)
        },
        Dir::West => {
            if x == 0 {
                return None;
            }
            (x - 1, y)
        },
    };
    if ny < grid.len() && nx < grid[ny].len() {
        Some(Point(nx, ny))
    } else {
        None
    }
}

/// Infers the start cell's shape from which of its four neighbours link back to it.
pub fn determine_start_pipe_shape(grid: &Vec<Vec<Pipe>>, start_point: Point) -> (r: Option<Pipe>)
    ensures
        r == start_shape(view2(grid@), start_point.0 as int, start_point.1 as int),
{
    let n = start_links(grid, start_point, Dir::North);
    let s = start_links(grid, start_point, Dir::South);
    let e = start_links(grid, start_point, Dir::East);
    let w = start_links(grid, start_point, Dir::West);
    if n && s && !e && !w {
        Some(Pipe::Vertical)
    } else if e && w && !n && !s {
        Some(Pipe::Horizontal)
    } else if n && e && !s && !w {
        Some(Pipe::NorthEast)
    } else if n && w && !s && !e {
        Some(Pipe::NorthWest)
    } else if s && w && !n && !e {
        Some(Pipe::SouthWest)
    } else if s && e && !n && !w {
        Some(Pipe::SouthEast)
    } else {
        None
    }
}

fn start_links(grid: &Vec<Vec<Pipe>>, p: Point, d: Dir) -> (r: bool)
    ensures
        r == links(view2(grid@), p.0 as int, p.1 as int, d),
{
    match neighbor(grid, p, d) {
        Some(q) => opens_exec(grid[q.1][q.0], opposite_exec(d)),
        None => false,
    }
}

/// Reads the maze: one row per line, one cell per character. The start cell is given the
/// shape that its linked neighbours imply.
pub fn parse_input(input: &str) -> (r: Result<(Vec<Vec<Pipe>>, Point), MazeError>)
    ensures
        match r {
            Ok((g, p)) => maze(input@) == Ok::<(Seq<Seq<Pipe>>, (int, int)), MazeError>(
                (view2(g@), (p.0 as int, p.1 as int)),
            ),
            Err(e) => maze(input@) == Err::<(Seq<Seq<Pipe>>, (int, int)), MazeError>(e),
        },
{
    let chars = chars_of(input);
    let ls = lines_of(chars.as_slice());
    let ghost l = views(ls@);
    let mut grid: Vec<Vec<Pipe>> = Vec::new();
    let mut start: Option<Point> = None;
    let mut y: usize = 0;
    while y < ls.len()
        invariant
            l == lines(input@),
            l == views(ls@),
            0 <= y <= ls@.len(),
            view2(grid@) =~= raw_grid(l).take(y as int),
            start matches Some(p) ==> is_start(l, p.0 as int, p.1 as int) && p.1 < y,
            forall|xx: int, yy: int|
                #[trigger] is_start(l, xx, yy) && yy < y ==> is_at(start, xx, yy),
        decreases ls@.len() - y,
    {
        let line = &ls[y];
        assert(line@ == l[y as int]);
        let mut row: Vec<Pipe> = Vec::new();
        let mut x: usize = 0;
        while x < line.len()
            invariant
                l == lines(input@),
                l == views(ls@),
                0 <= y < ls@.len(),
                view2(grid@) =~= raw_grid(l).take(y as int),
                line@ == l[y as int],
                0 <= x <= line@.len(),
                row@ =~= line@.take(x as int).map_values(|c: char| pipe_of(c)),
                start matches Some(p) ==> is_start(l, p.0 as int, p.1 as int) && (p.1 < y || (p.1
                    == y && p.0 < x)),
                forall|xx: int, yy: int|
                    #[trigger] is_start(l, xx, yy) && (yy < y || (yy == y && xx < x))
                        ==> is_at(start, xx, yy),
            decreases line@.len() - x,
        {
            let c = line[x];
            if c == 'S' {
                assert(is_start(l, x as int, y as int));
                if let Some(p) = start {
                    assert(is_start(l, p.0 as int, p.1 as int));
                    assert(!single_start(l));
                    assert(has_start(l));
                    return Err(MazeError::MultipleStarts);
                }
                start = Some(Point(x, y));
            }
            row.push(pipe_from_char(c));
            x += 1;
        }
        assert(row@ =~= raw_grid(l)[y as int]);
        let ghost before = grid@;
        grid.push(row);
        assert(view2(grid@) =~= view2(before).push(raw_grid(l)[y as int]));
        y += 1;
    }
    assert(raw_grid(l).take(y as int) =~= raw_grid(l));
    match start {
        None => {
            assert(!has_start(l));
            Err(MazeError::MissingStart)
        },
        Some(p) => {
            assert(is_start(l, p.0 as int, p.1 as int));
            assert(has_start(l));
            assert(single_start(l));
            let ghost q = start_of(l);
            assert(is_start(l, q.0, q.1));
            assert(q == (p.0 as int, p.1 as int));
            match determine_start_pipe_shape(&grid, p) {
                None => Err(MazeError::MalformedStart),
                Some(shape) => {
                    let ghost g0 = view2(grid@);
                    let mut row = grid[p.1].clone();
                    row.set(p.0, shape);
                    grid.set(p.1, row);
                    assert(view2(grid@) =~= g0.update(p.1 as int, g0[p.1 as int].update(p.0 as int, shape)));
                    Ok((grid, p))
                },
            }
        },
    }
}

pub open spec fn pt(p: Point) -> (int, int) {
    (p.0 as int, p.1 as int)
}

pub open spec fn pts(v: Seq<Point>) -> Seq<(int, int)> {
    v.map_values(|q: Point| pt(q))
}

/// The segment `p` standing at `a` opens towards `b`.
pub open spec fn leads_to(p: Pipe, a: (int, int), b: (int, int)) -> bool {
    ||| opens(p, Dir::North) && b == offset(a.0, a.1, Dir::North)
    ||| opens(p, Dir::South) && b == offset(a.0, a.1, Dir::South)
    ||| opens(p, Dir::East) && b == offset(a.0, a.1, Dir::East)
    ||| opens(p, Dir::West) && b == offset(a.0, a.1, Dir::West)
}

/// One move through the maze: from a cell of the grid to a cell of the grid that its segment
/// opens towards.
pub open spec fn step(g: Seq<Seq<Pipe>>, a: (int, int), b: (int, int)) -> bool {
    in_grid(g, a.0, a.1) && in_grid(g, b.0, b.1) && leads_to(g[a.1][a.0], a, b)
}

/// The cells one move away from some cell of `w`.
pub open spec fn image(g: Seq<Seq<Pipe>>, w: Set<(int, int)>) -> Set<(int, int)> {
    Set::new(|b: (int, int)| exists|a: (int, int)| #[trigger] w.contains(a) && step(g, a, b))
}

/// The cells reached from `s` in at most `k` moves.
pub open spec fn within(g: Seq<Seq<Pipe>>, s: (int, int), k: nat) -> Set<(int, int)>
    decreases k,
{
    if k == 0 {
        set![s]
    } else {
        within(g, s, (k - 1) as nat) + image(g, within(g, s, (k - 1) as nat))
    }
}

pub open spec fn representable(b: (int, int)) -> bool {
    0 <= b.0 <= usize::MAX && 0 <= b.1 <= usize::MAX
}

pub open spec fn toward(p: Pipe, a: (int, int), d: Dir) -> Seq<(int, int)> {
    let b = offset(a.0, a.1, d);
    if opens(p, d) && representable(b) {
        seq![b]
    } else {
        Seq::empty()
    }
}

/// The cells that the segment `p` at `a` opens towards, in the order north, south, east,
/// west, leaving out those off the range of `usize`.
pub open spec fn candidates(p: Pipe, a: (int, int)) -> Seq<(int, int)> {
    toward(p, a, Dir::North) + toward(p, a, Dir::South) + toward(p, a, Dir::East) + toward(
        p,
        a,
        Dir::West,
    )
}

/// The cells of a mask that are set.
pub open spec fn mask_set(m: Seq<Seq<bool>>) -> Set<(int, int)> {
    Set::new(|b: (int, int)| in_grid(m, b.0, b.1) && m[b.1][b.0])
}

pub open spec fn same_shape<T, U>(m: Seq<Seq<T>>, g: Seq<Seq<U>>) -> bool {
    m.len() == g.len() && forall|y: int| 0 <= y < g.len() ==> #[trigger] m[y].len() == g[y].len()
}

pub open spec fn fits(g: Seq<Seq<Pipe>>) -> bool {
    g.len() <= usize::MAX && forall|y: int| 0 <= y < g.len() ==> #[trigger] g[y].len() <= usize::MAX
}

pub open spec fn count_row(r: Seq<bool>) -> nat
    decreases r.len(),
{
    if r.len() == 0 {
        0
    } else {
        count_row(r.drop_last()) + if r.last() {
            0nat
        } else {
            1nat
        }
    }
}

/// The number of cells of a mask that are clear.
pub open spec fn count_clear(m: Seq<Seq<bool>>) -> nat
    decreases m.len(),
{
    if m.len() == 0 {
        0
    } else {
        count_clear(m.drop_last()) + count_row(m.last())
    }
}

proof fn lemma_count_row_set(r: Seq<bool>, i: int)
    requires
        0 <= i < r.len(),
        !r[i],
    ensures
        count_row(r.update(i, true)) + 1 == count_row(r),
    decreases r.len(),
{
    if i < r.len() - 1 {
        assert(r.update(i, true).drop_last() =~= r.drop_last().update(i, true));
        lemma_count_row_set(r.drop_last(), i);
    } else {
        assert(r.update(i, true).drop_last() =~= r.drop_last());
    }
}

proof fn lemma_count_clear_set(m: Seq<Seq<bool>>, x: int, y: int)
    requires
        in_grid(m, x, y),
        !m[y][x],
    ensures
        count_clear(m.update(y, m[y].update(x, true))) + 1 == count_clear(m),
    decreases m.len(),
{
    let m2 = m.update(y, m[y].update(x, true));
    if y < m.len() - 1 {
        assert(m2.drop_last() =~= m.drop_last().update(y, m[y].update(x, true)));
        lemma_count_clear_set(m.drop_last(), x, y);
    } else {
        assert(m2.drop_last() =~= m.drop_last());
        lemma_count_row_set(m[y], x);
    }
}

fn push_toward(r: &mut Vec<Point>, p: Point, pipe: Pipe, d: Dir)
    ensures
        pts(final(r)@) == pts(old(r)@) + toward(pipe, pt(p), d),
{
    let ghost before = r@;
    if opens_exec(pipe, d) {
        let Point(x, y) = p;
        match d {
            Dir::North => {
                if y > 0 {
                    r.push(Point(x, y - 1));
                }
            },
            Dir::South => {
                if y < usize::MAX {
                    r.push(Point(x, y + 1));
                }
            },
            Dir::East => {
                if x < usize::MAX {
                    r.push(Point(x + 1, y));
                }
            },
            Dir::West => {
                if x > 0 {
                    r.push(Point(x - 1, y));
                }
            },
        }
    }
    assert(pts(r@) =~= pts(before) + toward(pipe, pt(p), d));
}

/// The cells that `pipe`, standing at `point`, opens towards. A cell that would lie at a
/// negative coordinate, or beyond the range of `usize`, is left out.
pub fn get_neighbors(point: Point, pipe: Pipe) -> (r: Vec<Point>)
    ensures
        pts(r@) == candidates(pipe, pt(point)),
{
    let mut r: Vec<Point> = Vec::new();
    assert(pts(r@) =~= Seq::<(int, int)>::empty());
    push_toward(&mut r, point, pipe, Dir::North);
    push_toward(&mut r, point, pipe, Dir::South);
    push_toward(&mut r, point, pipe, Dir::East);
    push_toward(&mut r, point, pipe, Dir::West);
    assert(pts(r@) =~= candidates(pipe, pt(point)));
    r
}

proof fn lemma_candidates(g: Seq<Seq<Pipe>>, a: (int, int), b: (int, int))
    requires
        fits(g),
        in_grid(g, a.0, a.1),
    ensures
        step(g, a, b) <==> in_grid(g, b.0, b.1) && candidates(g[a.1][a.0], a).contains(b),
{
    let p = g[a.1][a.0];
    let c = candidates(p, a);
    if in_grid(g, b.0, b.1) {
        assert(representable(b));
        if step(g, a, b) {
            let n = toward(p, a, Dir::North);
            let s = toward(p, a, Dir::South);
            let e = toward(p, a, Dir::East);
            let w = toward(p, a, Dir::West);
            if opens(p, Dir::North) && b == offset(a.0, a.1, Dir::North) {
                assert(c[0] == b);
            } else if opens(p, Dir::South) && b == offset(a.0, a.1, Dir::South) {
                assert(c[n.len() as int] == b);
            } else if opens(p, Dir::East) && b == offset(a.0, a.1, Dir::East) {
                assert(c[(n.len() + s.len()) as int] == b);
            } else {
                assert(c[(n.len() + s.len() + e.len()) as int] == b);
            }
        }
        if c.contains(b) {
            let i = choose|i: int| 0 <= i < c.len() && c[i] == b;
            assert(leads_to(p, a, b));
        }
    }
}

fn mark(m: &mut Vec<Vec<bool>>, x: usize, y: usize)
    requires
        in_grid(view2(old(m)@), x as int, y as int),
    ensures
        view2(final(m)@) == view2(old(m)@).update(y as int, view2(old(m)@)[y as int].update(x as int, true)),
{
    let ghost m0 = view2(m@);
    let mut row = m[y].clone();
    assert(row@ =~= m0[y as int]);
    row.set(x, true);
    m.set(y, row);
    assert(view2(m@) =~= m0.update(y as int, m0[y as int].update(x as int, true)));
}

pub open spec fn seq_set(v: Seq<(int, int)>) -> Set<(int, int)> {
    Set::new(|a: (int, int)| v.contains(a))
}

/// The cells of `v` that are in the grid.
pub open spec fn cells(g: Seq<Seq<Pipe>>, v: Seq<(int, int)>) -> Set<(int, int)> {
    Set::new(|b: (int, int)| in_grid(g, b.0, b.1) && v.contains(b))
}

proof fn lemma_image_union(g: Seq<Seq<Pipe>>, a: Set<(int, int)>, b: Set<(int, int)>)
    ensures
        image(g, a + b) == image(g, a) + image(g, b),
{
    assert forall|q: (int, int)| #[trigger]
        image(g, a + b).contains(q) <==> (image(g, a) + image(g, b)).contains(q) by {
        if image(g, a + b).contains(q) {
            let p = choose|p: (int, int)| #[trigger] (a + b).contains(p) && step(g, p, q);
            if a.contains(p) {
                assert(image(g, a).contains(q));
            } else {
                assert(image(g, b).contains(q));
            }
        }
        if image(g, a).contains(q) {
            let p = choose|p: (int, int)| #[trigger] a.contains(p) && step(g, p, q);
            assert((a + b).contains(p));
        }
        if image(g, b).contains(q) {
            let p = choose|p: (int, int)| #[trigger] b.contains(p) && step(g, p, q);
            assert((a + b).contains(p));
        }
    }
    assert(image(g, a + b) =~= image(g, a) + image(g, b));
}

proof fn lemma_image_single(g: Seq<Seq<Pipe>>, a: (int, int))
    requires
        fits(g),
        in_grid(g, a.0, a.1),
    ensures
        image(g, set![a]) == cells(g, candidates(g[a.1][a.0], a)),
{
    assert forall|q: (int, int)| #[trigger]
        image(g, set![a]).contains(q) <==> cells(g, candidates(g[a.1][a.0], a)).contains(q) by {
        lemma_candidates(g, a, q);
        if image(g, set![a]).contains(q) {
            let p = choose|p: (int, int)| #[trigger] set![a].contains(p) && step(g, p, q);
            assert(p == a);
        }
        if cells(g, candidates(g[a.1][a.0], a)).contains(q) {
            assert(set![a].contains(a));
        }
    }
    assert(image(g, set![a]) =~= cells(g, candidates(g[a.1][a.0], a)));
}

proof fn lemma_within_grows(g: Seq<Seq<Pipe>>, s: (int, int), k: nat)
    ensures
        within(g, s, k) <= within(g, s, k + 1),
        image(g, within(g, s, k)) <= within(g, s, k + 1),
{
}

proof fn lemma_seq_set_push(v: Seq<(int, int)>, a: (int, int))
    ensures
        seq_set(v.push(a)) == seq_set(v) + set![a],
{
    assert forall|q: (int, int)| #[trigger] seq_set(v.push(a)).contains(q) <==> (seq_set(v) + set![a]).contains(q) by {
        if v.push(a).contains(q) {
            let i = choose|i: int| 0 <= i < v.push(a).len() && v.push(a)[i] == q;
            if i < v.len() {
                assert(v[i] == q);
            }
        }
        if v.contains(q) {
            let i = choose|i: int| 0 <= i < v.len() && v[i] == q;
            assert(v.push(a)[i] == q);
        }
        if q == a {
            assert(v.push(a)[v.len() as int] == q);
        }
    }
    assert(seq_set(v.push(a)) =~= seq_set(v) + set![a]);
}

/// Walks the maze from `start_point`, one level of moves at a time, until no new cell is
/// reached. Returns the number of levels that reached new cells, which is the largest
/// distance from the start to a cell of the loop, and the mask of the cells reached.
pub fn find_farthest_point(grid: &Vec<Vec<Pipe>>, start_point: Point) -> (r: (usize, Vec<Vec<bool>>))
    requires
        in_grid(view2(grid@), start_point.0 as int, start_point.1 as int),
    ensures
        same_shape(view2(r.1@), view2(grid@)),
        mask_set(view2(r.1@)) == within(view2(grid@), pt(start_point), r.0 as nat),
        mask_set(view2(r.1@)).contains(pt(start_point)),
        within(view2(grid@), pt(start_point), (r.0 + 1) as nat) == within(
            view2(grid@),
            pt(start_point),
            r.0 as nat,
        ),
        forall|j: nat|
            j < r.0 ==> #[trigger] within(view2(grid@), pt(start_point), j) != within(
                view2(grid@),
                pt(start_point),
                j + 1,
            ),
{
    let ghost g = view2(grid@);
    let ghost s = pt(start_point);
    assert forall|y: int| 0 <= y < g.len() implies #[trigger] g[y].len() <= usize::MAX by {
        assert(g[y] == grid@[y]@);
        assert(grid@[y].len() == grid@[y]@.len());
    }
    assert(g.len() == grid.len());
    assert(fits(g));
    let mut visited: Vec<Vec<bool>> = Vec::new();
    let mut y: usize = 0;
    while y < grid.len()
        invariant
            g == view2(grid@),
            0 <= y <= grid@.len(),
            visited@.len() == y,
            forall|yy: int| 0 <= yy < y ==> #[trigger] visited@[yy]@.len() == grid@[yy]@.len(),
            forall|yy: int, xx: int| 0 <= yy < y && 0 <= xx < visited@[yy]@.len() ==> !#[trigger] visited@[yy]@[xx],
        decreases grid@.len() - y,
    {
        let row = vec![false; grid[y].len()];
        visited.push(row);
        y += 1;
    }
    assert(mask_set(view2(visited@)) =~= Set::<(int, int)>::empty());
    mark(&mut visited, start_point.0, start_point.1);
    assert(mask_set(view2(visited@)) =~= set![s]);
    let mut all: Vec<Point> = Vec::new();
    all.push(start_point);
    let mut frontier: Vec<Point> = Vec::new();
    frontier.push(start_point);
    assert(pts(frontier@) =~= seq![s]);
    assert forall|z: (int, int)| #[trigger] seq_set(pts(frontier@)).contains(z) <==> z == s by {
        if z == s {
            assert(pts(frontier@)[0] == z);
        }
    }
    assert(seq_set(pts(frontier@)) =~= set![s]);
    let mut level: usize = 0;
    loop
        invariant
            g == view2(grid@),
            s == pt(start_point),
            fits(g),
            same_shape(view2(visited@), g),
            mask_set(view2(visited@)) == within(g, s, level as nat),
            within(g, s, (level + 1) as nat) == within(g, s, level as nat) + image(g, seq_set(pts(frontier@))),
            frontier@.len() > 0,
            forall|k: int| 0 <= k < frontier@.len() ==> #[trigger] in_grid(g, frontier@[k].0 as int, frontier@[k].1 as int),
            level + 1 <= all@.len(),
            forall|j: nat| j < level ==> #[trigger] within(g, s, j) != within(g, s, j + 1),
        decreases count_clear(view2(visited@)), frontier@.len(),
    {
        let ghost w = within(g, s, level as nat);
        let ghost c0 = count_clear(view2(visited@));
        let mut next: Vec<Point> = Vec::new();
        let mut i: usize = 0;
        while i < frontier.len()
            invariant
                g == view2(grid@),
                s == pt(start_point),
                fits(g),
                w == within(g, s, level as nat),
                same_shape(view2(visited@), g),
                0 <= i <= frontier@.len(),
                forall|k: int| 0 <= k < frontier@.len() ==> #[trigger] in_grid(g, frontier@[k].0 as int, frontier@[k].1 as int),
                mask_set(view2(visited@)) == w + image(g, seq_set(pts(frontier@.take(i as int)))),
                mask_set(view2(visited@)) == w + seq_set(pts(next@)),
                forall|k: int| 0 <= k < next@.len() ==> !w.contains(#[trigger] pt(next@[k])),
                count_clear(view2(visited@)) + next@.len() == c0,
                level + 1 + next@.len() <= all@.len(),
            decreases frontier@.len() - i,
        {
            let p = frontier[i];
            let ghost a = pt(p);
            let ghost done = image(g, seq_set(pts(frontier@.take(i as int))));
            assert(in_grid(g, frontier@[i as int].0 as int, frontier@[i as int].1 as int));
            assert(g[p.1 as int] == grid@[p.1 as int]@);
            let pipe = grid[p.1][p.0];
            let nbrs = get_neighbors(p, pipe);
            let ghost cs = pts(nbrs@);
            let mut j: usize = 0;
            assert(cells(g, cs.take(0)) =~= Set::<(int, int)>::empty());
            while j < nbrs.len()
                invariant
                    g == view2(grid@),
                    fits(g),
                    same_shape(view2(visited@), g),
                    cs == pts(nbrs@),
                    0 <= j <= nbrs@.len(),
                    mask_set(view2(visited@)) == w + done + cells(g, cs.take(j as int)),
                    mask_set(view2(visited@)) == w + seq_set(pts(next@)),
                    forall|k: int| 0 <= k < next@.len() ==> !w.contains(#[trigger] pt(next@[k])),
                    count_clear(view2(visited@)) + next@.len() == c0,
                    level + 1 + next@.len() <= all@.len(),
                decreases nbrs@.len() - j,
            {
                let q = nbrs[j];
                let ghost b = pt(q);
                let ghost m0 = view2(visited@);
                let ghost n0 = next@;
                assert(cs.take(j + 1) =~= cs.take(j as int).push(b));
                assert forall|z: (int, int)| #[trigger] cells(g, cs.take(j + 1)).contains(z) <==> (cells(g, cs.take(j as int)).contains(z) || (z == b && in_grid(g, b.0, b.1))) by {
                    lemma_seq_set_push(cs.take(j as int), b);
                    assert(seq_set(cs.take(j + 1)).contains(z) == cs.take(j + 1).contains(z));
                    assert(seq_set(cs.take(j as int)).contains(z) == cs.take(j as int).contains(z));
                }
                if q.1 < grid.len() && q.0 < grid[q.1].len() && {
                    assert(g[q.1 as int] == grid@[q.1 as int]@);
                    assert(view2(visited@)[q.1 as int] == visited@[q.1 as int]@);
                    assert(view2(visited@)[q.1 as int].len() == g[q.1 as int].len());
                    !visited[q.1][q.0]
                } {
                    proof {
                        lemma_count_clear_set(m0, b.0, b.1);
                        lemma_seq_set_push(pts(n0), b);
                        assert(pts(n0.push(q)) =~= pts(n0).push(b));
                    }
                    assert(!mask_set(m0).contains(b));
                    assert(!w.contains(b));
                    mark(&mut visited, q.0, q.1);
                    next.push(q);
                    assert forall|k: int| 0 <= k < next@.len() implies !w.contains(#[trigger] pt(next@[k])) by {
                        if k < n0.len() {
                            assert(next@[k] == n0[k]);
                        }
                    }
                    all.push(q);
                    assert(mask_set(view2(visited@)) =~= mask_set(m0) + set![b]);
                    assert(mask_set(view2(visited@)) =~= w + done + cells(g, cs.take(j + 1)));
                    assert(mask_set(view2(visited@)) =~= w + seq_set(pts(next@)));
                } else {
                    assert(mask_set(view2(visited@)) =~= w + done + cells(g, cs.take(j + 1)));
                }
                j += 1;
            }
            proof {
                assert(cs.take(cs.len() as int) =~= cs);
                lemma_image_single(g, a);
                assert(frontier@.take(i + 1) =~= frontier@.take(i as int).push(p));
                assert(pts(frontier@.take(i + 1)) =~= pts(frontier@.take(i as int)).push(a));
                lemma_seq_set_push(pts(frontier@.take(i as int)), a);
                lemma_image_union(g, seq_set(pts(frontier@.take(i as int))), set![a]);
            }
            assert(mask_set(view2(visited@)) =~= w + image(g, seq_set(pts(frontier@.take(i + 1)))));
            i += 1;
        }
        assert(frontier@.take(frontier@.len() as int) =~= frontier@);
        assert(mask_set(view2(visited@)) == within(g, s, (level + 1) as nat));
        if next.len() == 0 {
            assert(seq_set(pts(next@)) =~= Set::<(int, int)>::empty());
            assert(within(g, s, (level + 1) as nat) =~= w);
            proof {
                lemma_loop_has_start(g, s, level as nat);
            }
            return (level, visited);
        }
        let ghost f2 = seq_set(pts(next@));
        let ghost w1 = within(g, s, (level + 1) as nat);
        assert(pts(next@)[0] == pt(next@[0]));
        assert(f2.contains(pt(next@[0])));
        assert(!w.contains(pt(next@[0])));
        assert(w1 != w);
        proof {
            lemma_within_grows(g, s, level as nat);
            lemma_within_grows(g, s, (level + 1) as nat);
            assert(w1 =~= w + f2);
            lemma_image_union(g, w, f2);
            assert(within(g, s, (level + 2) as nat) =~= w1 + image(g, f2));
            assert forall|k: int| 0 <= k < next@.len() implies #[trigger] in_grid(g, next@[k].0 as int, next@[k].1 as int) by {
                assert(pts(next@)[k] == pt(next@[k]));
                assert(f2.contains(pt(next@[k])));
                assert(mask_set(view2(visited@)).contains(pt(next@[k])));
                assert(view2(visited@)[next@[k].1 as int].len() == g[next@[k].1 as int].len());
            }
        }
        let n_all = all.len();
        assert(level + 1 < n_all);
        frontier = next;
        level = level + 1;
    }
}

/// A segment that the scan counts on its left-hand side.
pub open spec fn is_left(p: Pipe) -> bool {
    p == Pipe::Horizontal || p == Pipe::NorthWest || p == Pipe::SouthWest
}

/// A segment that the scan counts on its right-hand side.
pub open spec fn is_right(p: Pipe) -> bool {
    p == Pipe::Horizontal || p == Pipe::NorthEast || p == Pipe::SouthEast
}

/// The number of cells of `lp` in column `x` above row `y` whose segment is on the left-hand
/// side (or, where `left` is false, the right-hand side).
pub open spec fn count_above(g: Seq<Seq<Pipe>>, lp: Set<(int, int)>, x: int, y: int, left: bool) -> nat
    decreases y,
{
    if y <= 0 {
        0
    } else {
        count_above(g, lp, x, y - 1, left) + if in_grid(g, x, y - 1) && lp.contains((x, y - 1))
            && (if left {
            is_left(g[y - 1][x])
        } else {
            is_right(g[y - 1][x])
        }) {
            1nat
        } else {
            0nat
        }
    }
}

/// The cell `(x, y)` is off the loop `lp` and the smaller of its two counts
/// above it is odd.
pub open spec fn enclosed(g: Seq<Seq<Pipe>>, lp: Set<(int, int)>, x: int, y: int) -> bool {
    let l = count_above(g, lp, x, y, true);
    let r = count_above(g, lp, x, y, false);
    &&& in_grid(g, x, y)
    &&& !lp.contains((x, y))
    &&& (if l < r {
        l
    } else {
        r
    }) % 2 == 1
}

/// `a` comes before `b` in row-major order.
pub open spec fn before(a: (int, int), b: (int, int)) -> bool {
    a.1 < b.1 || (a.1 == b.1 && a.0 < b.0)
}

proof fn lemma_count_above_bound(g: Seq<Seq<Pipe>>, lp: Set<(int, int)>, x: int, y: int, left: bool)
    requires
        y >= 0,
    ensures
        count_above(g, lp, x, y, left) <= y,
    decreases y,
{
    if y > 0 {
        lemma_count_above_bound(g, lp, x, y - 1, left);
    }
}

/// The cells enclosed by the loop whose cells `loop_points` marks, in row-major order.
pub fn in_loop(map: &Vec<Vec<Pipe>>, loop_points: &Vec<Vec<bool>>) -> (r: Vec<Point>)
    requires
        same_shape(view2(loop_points@), view2(map@)),
    ensures
        forall|k: int| 0 <= k < r@.len() ==> enclosed(view2(map@), mask_set(view2(loop_points@)), #[trigger] r@[k].0 as int, r@[k].1 as int),
        forall|x: int, y: int| #[trigger] enclosed(view2(map@), mask_set(view2(loop_points@)), x, y) ==> pts(r@).contains((x, y)),
        forall|i: int, j: int| 0 <= i < j < r@.len() ==> before(#[trigger] pt(r@[i]), #[trigger] pt(r@[j])),
{
    let ghost g = view2(map@);
    let ghost lp = mask_set(view2(loop_points@));
    let mut width: usize = 0;
    let mut y: usize = 0;
    while y < map.len()
        invariant
            0 <= y <= map@.len(),
            forall|yy: int| 0 <= yy < y ==> #[trigger] map@[yy]@.len() <= width,
        decreases map@.len() - y,
    {
        if map[y].len() > width {
            width = map[y].len();
        }
        y += 1;
    }
    let mut lefts: Vec<usize> = vec![0; width];
    let mut rights: Vec<usize> = vec![0; width];
    let mut r: Vec<Point> = Vec::new();
    y = 0;
    while y < map.len()
        invariant
            g == view2(map@),
            lp == mask_set(view2(loop_points@)),
            same_shape(view2(loop_points@), g),
            0 <= y <= map@.len(),
            forall|yy: int| 0 <= yy < map@.len() ==> #[trigger] map@[yy]@.len() <= width,
            lefts@.len() == width,
            rights@.len() == width,
            forall|x: int| 0 <= x < width ==> #[trigger] lefts@[x] == count_above(g, lp, x, y as int, true),
            forall|x: int| 0 <= x < width ==> #[trigger] rights@[x] == count_above(g, lp, x, y as int, false),
            forall|k: int| #![trigger r@[k]] 0 <= k < r@.len() ==> enclosed(g, lp, r@[k].0 as int, r@[k].1 as int) && r@[k].1 < y,
            forall|xx: int, yy: int| #[trigger] enclosed(g, lp, xx, yy) && yy < y ==> pts(r@).contains((xx, yy)),
            forall|i: int, j: int| 0 <= i < j < r@.len() ==> before(#[trigger] pt(r@[i]), #[trigger] pt(r@[j])),
        decreases map@.len() - y,
    {
        let row = &map[y];
        let mrow = &loop_points[y];
        assert(g[y as int] == row@);
        assert(view2(loop_points@)[y as int] == mrow@);
        let mut x: usize = 0;
        assert forall|k: int| #![trigger r@[k]] 0 <= k < r@.len() implies enclosed(g, lp, r@[k].0 as int, r@[k].1 as int) && (r@[k].1 < y || (r@[k].1 == y && r@[k].0 < x)) by {
            assert(enclosed(g, lp, r@[k].0 as int, r@[k].1 as int) && r@[k].1 < y);
        }
        while x < row.len()
            invariant
                g == view2(map@),
                lp == mask_set(view2(loop_points@)),
                same_shape(view2(loop_points@), g),
                0 <= y < map@.len(),
                g[y as int] == row@,
                view2(loop_points@)[y as int] == mrow@,
                mrow@.len() == row@.len(),
                0 <= x <= row@.len(),
                row@.len() <= width,
                lefts@.len() == width,
                rights@.len() == width,
                forall|x: int| 0 <= x < width ==> #[trigger] lefts@[x] == count_above(g, lp, x, y as int, true),
                forall|x: int| 0 <= x < width ==> #[trigger] rights@[x] == count_above(g, lp, x, y as int, false),
                forall|k: int| #![trigger r@[k]] 0 <= k < r@.len() ==> enclosed(g, lp, r@[k].0 as int, r@[k].1 as int) && (r@[k].1 < y || (r@[k].1 == y && r@[k].0 < x)),
                forall|xx: int, yy: int| #[trigger] enclosed(g, lp, xx, yy) && (yy < y || (yy == y && xx < x)) ==> pts(r@).contains((xx, yy)),
                forall|i: int, j: int| 0 <= i < j < r@.len() ==> before(#[trigger] pt(r@[i]), #[trigger] pt(r@[j])),
            decreases row@.len() - x,
        {
            let l = lefts[x];
            let rt = rights[x];
            let least = if l < rt { l } else { rt };
            assert(lp.contains((x as int, y as int)) == mrow@[x as int]);
            let ghost r0 = r@;
            if !mrow[x] && least % 2 == 1 {
                r.push(Point(x, y));
                assert(pts(r@) =~= pts(r0).push((x as int, y as int)));
            }
            assert forall|xx: int, yy: int| #[trigger] enclosed(g, lp, xx, yy) && (yy < y || (yy == y && xx < x + 1)) implies pts(r@).contains((xx, yy)) by {
                if yy == y && xx == x {
                    assert(pts(r@)[r@.len() - 1] == (xx, yy));
                } else {
                    let k = choose|k: int| 0 <= k < pts(r0).len() && pts(r0)[k] == (xx, yy);
                    assert(pts(r@)[k] == (xx, yy));
                }
            }
            x += 1;
        }
        assert forall|xx: int, yy: int| #[trigger] enclosed(g, lp, xx, yy) && yy < y + 1 implies pts(r@).contains((xx, yy)) by {
            if yy == y {
                assert(xx < row@.len());
            }
        }
        let mut x: usize = 0;
        while x < width
            invariant
                g == view2(map@),
                lp == mask_set(view2(loop_points@)),
                same_shape(view2(loop_points@), g),
                0 <= y < map@.len(),
                g[y as int] == row@,
                view2(loop_points@)[y as int] == mrow@,
                mrow@.len() == row@.len(),
                0 <= x <= width,
                y < map.len(),
                forall|k: int| #![trigger r@[k]] 0 <= k < r@.len() ==> enclosed(g, lp, r@[k].0 as int, r@[k].1 as int) && r@[k].1 < y + 1,
                forall|xx: int, yy: int| #[trigger] enclosed(g, lp, xx, yy) && yy < y + 1 ==> pts(r@).contains((xx, yy)),
                forall|i: int, j: int| 0 <= i < j < r@.len() ==> before(#[trigger] pt(r@[i]), #[trigger] pt(r@[j])),
                lefts@.len() == width,
                rights@.len() == width,
                forall|z: int| 0 <= z < x ==> #[trigger] lefts@[z] == count_above(g, lp, z, y + 1, true),
                forall|z: int| 0 <= z < x ==> #[trigger] rights@[z] == count_above(g, lp, z, y + 1, false),
                forall|z: int| x <= z < width ==> #[trigger] lefts@[z] == count_above(g, lp, z, y as int, true),
                forall|z: int| x <= z < width ==> #[trigger] rights@[z] == count_above(g, lp, z, y as int, false),
            decreases width - x,
        {
            proof {
                lemma_count_above_bound(g, lp, x as int, y as int, true);
                lemma_count_above_bound(g, lp, x as int, y as int, false);
            }
            if x < row.len() && mrow[x] {
                assert(lp.contains((x as int, y as int)));
                assert(lefts@[x as int] <= y && rights@[x as int] <= y);
                let pipe = row[x];
                if pipe == Pipe::Horizontal || pipe == Pipe::NorthWest || pipe == Pipe::SouthWest {
                    lefts.set(x, lefts[x] + 1);
                }
                if pipe == Pipe::Horizontal || pipe == Pipe::NorthEast || pipe == Pipe::SouthEast {
                    rights.set(x, rights[x] + 1);
                }
            } else {
                assert(!(in_grid(g, x as int, y as int) && lp.contains((x as int, y as int))));
            }
            x += 1;
        }
        assert forall|k: int| #![trigger r@[k]] 0 <= k < r@.len() implies enclosed(g, lp, r@[k].0 as int, r@[k].1 as int) && r@[k].1 < y + 1 by {
            assert(enclosed(g, lp, r@[k].0 as int, r@[k].1 as int) && r@[k].1 < y + 1);
        }
        y += 1;
    }
    r
}

/// `k` is the level at which the walk from `s` stops reaching new cells.
pub open spec fn settles(g: Seq<Seq<Pipe>>, s: (int, int), k: nat) -> bool {
    &&& within(g, s, k + 1) == within(g, s, k)
    &&& forall|j: nat| j < k ==> #[trigger] within(g, s, j) != within(g, s, j + 1)
}

/// The largest distance from `s` to a cell reachable from it.
pub open spec fn farthest(g: Seq<Seq<Pipe>>, s: (int, int)) -> nat {
    choose|k: nat| settles(g, s, k)
}

/// The cells of the loop through `s`: those reachable from it.
pub open spec fn loop_cells(g: Seq<Seq<Pipe>>, s: (int, int)) -> Set<(int, int)> {
    within(g, s, farthest(g, s))
}

pub open spec fn enclosed_cells(g: Seq<Seq<Pipe>>, lp: Set<(int, int)>) -> Set<(int, int)> {
    Set::new(|p: (int, int)| enclosed(g, lp, p.0, p.1))
}

/// The two answers for the maze that `s` describes: the farthest distance along the loop
/// from the start, and the number of cells the loop encloses.
pub open spec fn solution(s: Seq<char>) -> Result<(nat, nat), MazeError> {
    match maze(s) {
        Err(e) => Err(e),
        Ok((g, st)) => Ok((farthest(g, st), enclosed_cells(g, loop_cells(g, st)).len())),
    }
}

pub proof fn lemma_settles_unique(g: Seq<Seq<Pipe>>, s: (int, int), k1: nat, k2: nat)
    requires
        settles(g, s, k1),
        settles(g, s, k2),
    ensures
        k1 == k2,
{
    if k1 < k2 {
        assert(within(g, s, k1) != within(g, s, k1 + 1));
    } else if k2 < k1 {
        assert(within(g, s, k2) != within(g, s, k2 + 1));
    }
}

/// Solves the maze: the farthest distance from the start along the loop, and the number of
/// cells that the loop encloses.
pub fn part1_2(input: &str) -> (r: Result<(usize, usize), MazeError>)
    ensures
        match r {
            Ok((a, b)) => solution(input@) == Ok::<(nat, nat), MazeError>((a as nat, b as nat)),
            Err(e) => solution(input@) == Err::<(nat, nat), MazeError>(e),
        },
{
    let (grid, start_point) = match parse_input(input) {
        Ok(v) => v,
        Err(e) => {
            return Err(e);
        },
    };
    let ghost g = view2(grid@);
    let ghost s = pt(start_point);
    proof {
        let l = lines(input@);
        assert(is_start(l, s.0, s.1));
        assert(raw_grid(l)[s.1].len() == l[s.1].len());
        assert(in_grid(g, s.0, s.1));
    }
    let (far_point, loop_pipes) = find_farthest_point(&grid, start_point);
    proof {
        assert(settles(g, s, far_point as nat));
        lemma_settles_unique(g, s, far_point as nat, farthest(g, s));
    }
    let inside = in_loop(&grid, &loop_pipes);
    proof {
        let lp = loop_cells(g, s);
        let ps = pts(inside@);
        assert forall|i: int, j: int| 0 <= i < ps.len() && 0 <= j < ps.len() && i != j implies ps[i] != ps[j] by {
            if i < j {
                assert(before(pt(inside@[i]), pt(inside@[j])));
            } else {
                assert(before(pt(inside@[j]), pt(inside@[i])));
            }
        }
        assert(ps.no_duplicates());
        ps.unique_seq_to_set();
        assert forall|p: (int, int)| #[trigger] ps.to_set().contains(p) <==> enclosed_cells(g, lp).contains(p) by {
            if ps.to_set().contains(p) {
                let k = choose|k: int| 0 <= k < ps.len() && ps[k] == p;
                assert(enclosed(g, lp, inside@[k].0 as int, inside@[k].1 as int));
            }
            if enclosed_cells(g, lp).contains(p) {
                assert(enclosed(g, lp, p.0, p.1));
                assert(ps.contains(p));
            }
        }
        assert(ps.to_set() =~= enclosed_cells(g, lp));
    }
    Ok((far_point, inside.len()))
}

/// The start cell is always one of the loop's cells.
pub proof fn lemma_loop_has_start(g: Seq<Seq<Pipe>>, s: (int, int), k: nat)
    ensures
        within(g, s, k).contains(s),
    decreases k,
{
    if k > 0 {
        lemma_loop_has_start(g, s, (k - 1) as nat);
    }
}

/// Reading the same text twice gives the same grid and start cell.
pub proof fn lemma_parse_deterministic(a: Seq<char>, b: Seq<char>)
    requires
        a == b,
    ensures
        maze(a) == maze(b),
        solution(a) == solution(b),
{
}

/// The index after `i` on a loop of `l` cells.
pub open spec fn next_on(l: int, i: int) -> int {
    if i + 1 < l {
        i + 1
    } else {
        0
    }
}

/// The index before `i` on a loop of `l` cells.
pub open spec fn prev_on(l: int, i: int) -> int {
    if i > 0 {
        i - 1
    } else {
        l - 1
    }
}

/// The number of moves from index 0 to index `i` along a loop of `l` cells, the shorter way.
pub open spec fn loop_dist(l: int, i: int) -> int {
    if i <= l - i {
        i
    } else {
        l - i
    }
}

/// `c` lists a closed loop of distinct cells, starting anywhere: from each of its cells the
/// maze leads exactly to the cells before and after it.
pub open spec fn is_loop(g: Seq<Seq<Pipe>>, c: Seq<(int, int)>) -> bool {
    &&& c.len() >= 2
    &&& forall|i: int, j: int| 0 <= i < c.len() && 0 <= j < c.len() && i != j ==> c[i] != c[j]
    &&& forall|i: int, b: (int, int)|
        0 <= i < c.len() ==> (#[trigger] step(g, c[i], b) <==> (b == c[prev_on(c.len() as int, i)] || b
            == c[next_on(c.len() as int, i)]))
}

/// The cells of the loop `c` at most `k` moves from its first cell.
pub open spec fn ring(c: Seq<(int, int)>, k: int) -> Set<(int, int)> {
    Set::new(|p: (int, int)| exists|i: int| 0 <= i < c.len() && loop_dist(c.len() as int, i) <= k && #[trigger] c[i] == p)
}

proof fn lemma_ring_grows(g: Seq<Seq<Pipe>>, c: Seq<(int, int)>, k: int)
    requires
        is_loop(g, c),
        k >= 0,
    ensures
        ring(c, k) + image(g, ring(c, k)) == ring(c, k + 1),
{
    let l = c.len() as int;
    assert forall|p: (int, int)| #[trigger] (ring(c, k) + image(g, ring(c, k))).contains(p) <==> ring(c, k + 1).contains(p) by {
        if ring(c, k).contains(p) {
            let i = choose|i: int| 0 <= i < c.len() && loop_dist(l, i) <= k && #[trigger] c[i] == p;
            assert(c[i] == p);
        }
        if image(g, ring(c, k)).contains(p) {
            let a = choose|a: (int, int)| #[trigger] ring(c, k).contains(a) && step(g, a, p);
            let i = choose|i: int| 0 <= i < c.len() && loop_dist(l, i) <= k && #[trigger] c[i] == a;
            assert(step(g, c[i], p));
            if p == c[prev_on(l, i)] {
                assert(loop_dist(l, prev_on(l, i)) <= k + 1);
            } else {
                assert(p == c[next_on(l, i)]);
                assert(loop_dist(l, next_on(l, i)) <= k + 1);
            }
        }
        if ring(c, k + 1).contains(p) && !ring(c, k).contains(p) {
            let j = choose|j: int| 0 <= j < c.len() && loop_dist(l, j) <= k + 1 && #[trigger] c[j] == p;
            if loop_dist(l, j) <= k {
                assert(c[j] == p);
            } else if j <= l - j {
                let i = j - 1;
                assert(next_on(l, i) == j);
                assert(step(g, c[i], c[next_on(l, i)]));
                assert(ring(c, k).contains(c[i]));
                assert(image(g, ring(c, k)).contains(p));
            } else {
                let i = next_on(l, j);
                assert(prev_on(l, i) == j);
                assert(step(g, c[i], c[prev_on(l, i)]));
                assert(ring(c, k).contains(c[i]));
                assert(image(g, ring(c, k)).contains(p));
            }
        }
    }
    assert(ring(c, k) + image(g, ring(c, k)) =~= ring(c, k + 1));
}

proof fn lemma_within_ring(g: Seq<Seq<Pipe>>, c: Seq<(int, int)>, k: nat)
    requires
        is_loop(g, c),
    ensures
        within(g, c[0], k) == ring(c, k as int),
    decreases k,
{
    if k == 0 {
        assert forall|p: (int, int)| #[trigger] ring(c, 0).contains(p) <==> set![c[0]].contains(p) by {
            if ring(c, 0).contains(p) {
                let i = choose|i: int| 0 <= i < c.len() && loop_dist(c.len() as int, i) <= 0 && #[trigger] c[i] == p;
            }
            if p == c[0] {
                assert(loop_dist(c.len() as int, 0) == 0);
                assert(c[0] == p);
            }
        }
        assert(ring(c, 0) =~= set![c[0]]);
    } else {
        lemma_within_ring(g, c, (k - 1) as nat);
        lemma_ring_grows(g, c, k - 1);
    }
}

/// Walking from any cell of a closed loop, the walk stops reaching new cells after half the
/// loop's length (rounded down), and it has reached exactly the loop's cells: the farthest
/// distance from the start is half the number of cells of the loop.
pub proof fn lemma_farthest_is_half_loop(g: Seq<Seq<Pipe>>, c: Seq<(int, int)>)
    requires
        is_loop(g, c),
    ensures
        farthest(g, c[0]) == c.len() / 2,
        loop_cells(g, c[0]) == c.to_set(),
{
    let l = c.len() as int;
    let h = (l / 2) as nat;
    lemma_within_ring(g, c, h);
    lemma_within_ring(g, c, h + 1);
    assert forall|p: (int, int)| #[trigger] ring(c, h + 1int).contains(p) <==> ring(c, h as int).contains(p) by {
        if ring(c, h + 1int).contains(p) {
            let i = choose|i: int| 0 <= i < c.len() && loop_dist(l, i) <= h + 1 && #[trigger] c[i] == p;
            assert(loop_dist(l, i) <= h);
            assert(c[i] == p);
        }
    }
    assert(ring(c, h + 1int) =~= ring(c, h as int));
    assert forall|j: nat| j < h implies #[trigger] within(g, c[0], j) != within(g, c[0], j + 1) by {
        lemma_within_ring(g, c, j);
        lemma_within_ring(g, c, j + 1);
        let q = c[j + 1int];
        assert(loop_dist(l, j + 1int) == j + 1);
        assert(ring(c, j + 1int).contains(q));
        if ring(c, j as int).contains(q) {
            let i = choose|i: int| 0 <= i < c.len() && loop_dist(l, i) <= j && #[trigger] c[i] == q;
            assert(i != j + 1int);
        }
    }
    assert(settles(g, c[0], h));
    lemma_settles_unique(g, c[0], h, farthest(g, c[0]));
    assert forall|p: (int, int)| #[trigger] ring(c, h as int).contains(p) <==> c.to_set().contains(p) by {
        if c.to_set().contains(p) {
            let i = choose|i: int| 0 <= i < c.len() && c[i] == p;
            assert(loop_dist(l, i) <= h);
            assert(c[i] == p);
        }
        if ring(c, h as int).contains(p) {
            let i = choose|i: int| 0 <= i < c.len() && loop_dist(l, i) <= h && #[trigger] c[i] == p;
            assert(c.contains(p));
        }
    }
    assert(ring(c, h as int) =~= c.to_set());
}

/// Both answers for the maze in the text `input`.
pub fn solve_day(input: &str) -> (r: Result<ReturnSize, MazeError>)
    ensures
        match r {
            Ok(ReturnSize::USIZE((a, b))) => solution(input@) == Ok::<(nat, nat), MazeError>((a as nat, b as nat)),
            Ok(_) => false,
            Err(e) => solution(input@) == Err::<(nat, nat), MazeError>(e),
        },
{
    match part1_2(input) {
        Ok(v) => Ok(ReturnSize::USIZE(v)),
        Err(e) => Err(e),
    }
}

} // verus!
