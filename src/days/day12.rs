use vstd::prelude::*;
use vstd::arithmetic::div_mod::lemma_fundamental_div_mod;
use vstd::set_lib::{lemma_len_subset, lemma_int_range, set_int_range};
use crate::text::line_bytes;

verus! {

/// Elevation stored for the start cell `S`.
pub const START_VAL: u8 = 0;

/// Elevation stored for the goal cell `E`: one above `z`.
pub const END_VAL: u8 = 27;

/// The byte `S`, marking the start cell.
pub const SYM_START: u8 = 83;

/// The byte `E`, marking the goal cell.
pub const SYM_END: u8 = 69;

/// The byte `a`, the lowest ordinary elevation.
pub const SYM_LOW: u8 = 97;

/// The byte `z`, the highest ordinary elevation.
pub const SYM_HIGH: u8 = 122;

/// A cell position: column `x`, row `y`.
#[derive(Clone, Copy, Debug, PartialEq, Eq, Structural)]
pub struct Point {
    pub x: usize,
    pub y: usize,
}

impl Point {
    pub fn new(xx: usize, yy: usize) -> (r: Point)
        ensures
            r.x == xx,
            r.y == yy,
    {
        Point { x: xx, y: yy }
    }
}

/// Why a grid access failed.
#[derive(Clone, Copy, Debug, PartialEq, Eq, Structural)]
pub enum GridError {
    OutOfBounds,
}

/// Why raw input could not be turned into a height map.
#[derive(Clone, Copy, Debug, PartialEq, Eq, Structural)]
pub enum ParseError {
    /// Not all rows have the same number of bytes.
    Ragged,
    /// A byte is neither `S`, `E` nor a lowercase letter.
    InvalidSymbol,
}

/// Why a search produced no step count.
#[derive(Clone, Copy, Debug, PartialEq, Eq, Structural)]
pub enum SearchError {
    Unreachable,
}

/// A row-major grid: the cell at `(x, y)` is `data[y * cols + x]`.
pub struct Matrix<T> {
    pub rows: usize,
    pub cols: usize,
    pub data: Vec<T>,
}

pub open spec fn index_of(cols: int, p: Point) -> int {
    p.y * cols + p.x
}

/// Position and index agree: an in-bounds point has an index inside the data.
pub proof fn lemma_index_in_range(rows: int, cols: int, p: Point)
    requires
        p.x < cols,
        p.y < rows,
    ensures
        0 <= index_of(cols, p) < rows * cols,
        index_of(cols, p) + 1 <= rows * cols,
{
    assert(p.y * cols + p.x < rows * cols) by (nonlinear_arith)
        requires
            p.x < cols,
            p.y < rows,
            0 <= p.x,
            0 <= p.y,
    ;
    assert(0 <= p.y * cols) by (nonlinear_arith)
        requires
            0 <= p.y,
            0 < cols,
    ;
}

/// Distinct in-bounds points have distinct indices.
pub proof fn lemma_index_injective(cols: int, p: Point, q: Point)
    requires
        p.x < cols,
        q.x < cols,
        index_of(cols, p) == index_of(cols, q),
    ensures
        p == q,
{
    if p.y < q.y {
        assert(p.y * cols + p.x < q.y * cols + q.x) by (nonlinear_arith)
            requires
                p.y < q.y,
                p.x < cols,
                0 <= q.x,
        ;
    } else if q.y < p.y {
        assert(q.y * cols + q.x < p.y * cols + p.x) by (nonlinear_arith)
            requires
                q.y < p.y,
                q.x < cols,
                0 <= p.x,
        ;
    }
}

/// The point whose index is `i`.
pub proof fn lemma_point_of_index(rows: int, cols: int, i: int)
    requires
        0 <= i < rows * cols,
        cols > 0,
    ensures
        0 <= i / cols < rows,
        0 <= i % cols < cols,
        (i / cols) * cols + i % cols == i,
{
    lemma_fundamental_div_mod(i, cols);
    let q = i / cols;
    let r = i % cols;
    assert(0 <= q) by (nonlinear_arith)
        requires
            i == cols * q + r,
            0 <= i,
            0 <= r < cols,
            cols > 0,
    ;
    assert(q < rows) by (nonlinear_arith)
        requires
            i == cols * q + r,
            i < rows * cols,
            0 <= r,
            cols > 0,
    ;
    assert(q * cols == cols * q) by (nonlinear_arith);
}

impl<T> Matrix<T> {
    /// The shape matches the stored data.
    pub open spec fn wf(&self) -> bool {
        self.rows * self.cols == self.data@.len()
    }

    pub open spec fn in_bounds(&self, p: Point) -> bool {
        p.x < self.cols && p.y < self.rows
    }

    pub open spec fn cell(&self, p: Point) -> T {
        self.data@[index_of(self.cols as int, p)]
    }

    /// `q` is in bounds and directly north, west, east or south of `p`.
    pub open spec fn adjacent(&self, p: Point, q: Point) -> bool {
        &&& self.in_bounds(q)
        &&& {
            ||| (q.x == p.x && q.y + 1 == p.y)
            ||| (q.y == p.y && q.x + 1 == p.x)
            ||| (q.y == p.y && q.x == p.x + 1)
            ||| (q.x == p.x && q.y == p.y + 1)
        }
    }

    /// The in-bounds neighbours of `p`, in the order north, west, east, south.
    pub open spec fn neighbours_of(&self, p: Point) -> Seq<Point> {
        let north = if p.y > 0 { seq![Point { x: p.x, y: (p.y - 1) as usize }] } else { seq![] };
        let west = if p.x > 0 { seq![Point { x: (p.x - 1) as usize, y: p.y }] } else { seq![] };
        let east = if p.x + 1 < self.cols { seq![Point { x: (p.x + 1) as usize, y: p.y }] } else { seq![] };
        let south = if p.y + 1 < self.rows { seq![Point { x: p.x, y: (p.y + 1) as usize }] } else { seq![] };
        north + west + east + south
    }

    /// Position of the in-bounds point `p` in the flat data.
    pub fn index(&self, p: &Point) -> (r: usize)
        requires
            self.wf(),
            self.in_bounds(*p),
        ensures
            r == index_of(self.cols as int, *p),
            r < self.data@.len(),
    {
        let n = self.data.len();
        proof {
            lemma_index_in_range(self.rows as int, self.cols as int, *p);
            assert(p.y * self.cols <= p.y * self.cols + p.x);
        }
        p.y * self.cols + p.x
    }

    /// The cell at `pos`, or `OutOfBounds` where `pos` lies outside the grid.
    pub fn get(&self, pos: &Point) -> (r: Result<&T, GridError>)
        requires
            self.wf(),
        ensures
            self.in_bounds(*pos) ==> r == Ok::<&T, GridError>(&self.cell(*pos)),
            !self.in_bounds(*pos) ==> r == Err::<&T, GridError>(GridError::OutOfBounds),
    {
        if pos.x < self.cols && pos.y < self.rows {
            Ok(&self.data[self.index(pos)])
        } else {
            Err(GridError::OutOfBounds)
        }
    }

    /// The in-bounds neighbours of an in-bounds point, north, west, east, south.
    pub fn get_neighbours(&self, p: &Point) -> (res: Vec<Point>)
        requires
            self.in_bounds(*p),
        ensures
            res@ == self.neighbours_of(*p),
            forall|q: Point| self.adjacent(*p, q) <==> res@.contains(q),
    {
        let mut res: Vec<Point> = Vec::new();
        if p.y > 0 {
            res.push(Point::new(p.x, p.y - 1));
        }
        if p.x > 0 {
            res.push(Point::new(p.x - 1, p.y));
        }
        if p.x < self.cols - 1 {
            res.push(Point::new(p.x + 1, p.y));
        }
        if p.y < self.rows - 1 {
            res.push(Point::new(p.x, p.y + 1));
        }
        assert(res@ == self.neighbours_of(*p));
        assert forall|q: Point| self.adjacent(*p, q) implies res@.contains(q) by {
            let nb = self.neighbours_of(*p);
            if q.x == p.x && q.y + 1 == p.y {
                assert(nb[0] == q);
            } else if q.y == p.y && q.x + 1 == p.x {
                let k = if p.y > 0 { 1int } else { 0int };
                assert(nb[k] == q);
            } else if q.y == p.y && q.x == p.x + 1 {
                let k = (if p.y > 0 { 1int } else { 0int }) + (if p.x > 0 { 1int } else { 0int });
                assert(nb[k] == q);
            } else {
                let k = (if p.y > 0 { 1int } else { 0int }) + (if p.x > 0 { 1int } else { 0int })
                    + (if p.x + 1 < self.cols { 1int } else { 0int });
                assert(nb[k] == q);
            }
        }
        res
    }
}

/// The elevation that symbol `c` stands for, if it is a recognised symbol.
pub open spec fn elevation_spec(c: u8) -> Option<u8> {
    if c == SYM_START {
        Some(START_VAL)
    } else if c == SYM_END {
        Some(END_VAL)
    } else if SYM_LOW <= c && c <= SYM_HIGH {
        Some((c - SYM_LOW + 1) as u8)
    } else {
        None
    }
}

/// Maps `S`, `E` and `a`..`z` to their elevations.
pub fn elevation(c: u8) -> (r: Result<u8, ParseError>)
    ensures
        r == (match elevation_spec(c) {
            Some(v) => Ok::<u8, ParseError>(v),
            None => Err(ParseError::InvalidSymbol),
        }),
{
    if c == SYM_START {
        Ok(START_VAL)
    } else if c == SYM_END {
        Ok(END_VAL)
    } else if SYM_LOW <= c && c <= SYM_HIGH {
        Ok(c - SYM_LOW + 1)
    } else {
        Err(ParseError::InvalidSymbol)
    }
}

/// The elevation a stored value has when moving: `S` counts as `a`, `E` as `z`.
pub open spec fn effective(v: u8) -> int {
    if v == START_VAL {
        1
    } else if v == END_VAL {
        26
    } else {
        v as int
    }
}

/// A move from height `from` to height `to` climbs at most one unit.
pub open spec fn traversable(from: u8, to: u8) -> bool {
    effective(to) <= effective(from) + 1
}

/// Seed cells: `S`, and in the multi-source variant also every `a`.
pub open spec fn is_start_spec(v: u8, multi: bool) -> bool {
    v == START_VAL || (multi && v == START_VAL + 1)
}

pub open spec fn is_goal_spec(v: u8) -> bool {
    v == END_VAL
}

/// Whether stored value `v` is a seed of the chosen variant.
pub fn is_start(v: u8, multi: bool) -> (r: bool)
    ensures
        r == is_start_spec(v, multi),
{
    v == START_VAL || (multi && v == START_VAL + 1)
}

/// Whether stored value `v` marks the goal.
pub fn is_goal(v: u8) -> (r: bool)
    ensures
        r == is_goal_spec(v),
{
    v == END_VAL
}

/// Whether a move from elevation `from` to elevation `to` is allowed.
pub fn can_move(from: u8, to: u8) -> (r: bool)
    ensures
        r == traversable(from, to),
{
    let f: u8 = if from == START_VAL { 1 } else if from == END_VAL { 26 } else { from };
    let t: u8 = if to == START_VAL { 1 } else if to == END_VAL { 26 } else { to };
    t as u16 <= f as u16 + 1
}

/// One step of the search: `v` neighbours the in-bounds cell `u` and is not too high.
pub open spec fn step(g: Matrix<u8>, u: Point, v: Point) -> bool {
    g.in_bounds(u) && g.adjacent(u, v) && traversable(g.cell(u), g.cell(v))
}

/// `p` can be reached from some seed in at most `n` steps.
pub open spec fn reachable_within(g: Matrix<u8>, multi: bool, p: Point, n: nat) -> bool
    decreases n,
{
    if n == 0 {
        g.in_bounds(p) && is_start_spec(g.cell(p), multi)
    } else {
        reachable_within(g, multi, p, (n - 1) as nat) || exists|u: Point|
            #[trigger] step(g, u, p) && reachable_within(g, multi, u, (n - 1) as nat)
    }
}

/// Some goal cell can be reached in at most `n` steps.
pub open spec fn goal_within(g: Matrix<u8>, multi: bool, n: nat) -> bool {
    exists|p: Point| #[trigger] reachable_within(g, multi, p, n) && is_goal_spec(g.cell(p))
}

/// `n` is the least number of steps that reaches a goal.
pub open spec fn is_shortest(g: Matrix<u8>, multi: bool, n: nat) -> bool {
    goal_within(g, multi, n) && forall|m: nat| m < n ==> !#[trigger] goal_within(g, multi, m)
}

/// What a search of `g` must return: the least step count, or `Unreachable`
/// exactly when no number of steps reaches a goal.
pub open spec fn search_outcome(g: Matrix<u8>, multi: bool, r: Result<usize, SearchError>) -> bool {
    match r {
        Ok(n) => is_shortest(g, multi, n as nat),
        Err(SearchError::Unreachable) => forall|n: nat| !#[trigger] goal_within(g, multi, n),
    }
}

/// `p` is reachable within `d` steps and not within fewer.
pub open spec fn first_reached_at(g: Matrix<u8>, multi: bool, p: Point, d: nat) -> bool {
    reachable_within(g, multi, p, d) && (d == 0 || !reachable_within(g, multi, p, (d - 1) as nat))
}

/// A cell reachable within `n` steps stays reachable within any larger budget:
/// a cell's search level never drops once it has been reached.
pub proof fn lemma_reachable_monotone(g: Matrix<u8>, multi: bool, p: Point, n: nat, m: nat)
    requires
        n <= m,
        reachable_within(g, multi, p, n),
    ensures
        reachable_within(g, multi, p, m),
    decreases m - n,
{
    if n < m {
        lemma_reachable_monotone(g, multi, p, n, (m - 1) as nat);
    }
}

/// Each cell has at most one first-reach level: the search, which marks a cell
/// at level `d` exactly when `first_reached_at(g, multi, p, d)`, never meets it
/// again at a smaller count.
pub proof fn lemma_first_level_unique(g: Matrix<u8>, multi: bool, p: Point, d1: nat, d2: nat)
    requires
        first_reached_at(g, multi, p, d1),
        first_reached_at(g, multi, p, d2),
    ensures
        d1 == d2,
{
    if d1 < d2 {
        lemma_reachable_monotone(g, multi, p, d1, (d2 - 1) as nat);
    } else if d2 < d1 {
        lemma_reachable_monotone(g, multi, p, d2, (d1 - 1) as nat);
    }
}

/// Once one more step reaches nothing new, no larger budget does either.
proof fn lemma_closed(g: Matrix<u8>, multi: bool, d: nat, p: Point, n: nat)
    requires
        forall|q: Point|
            #[trigger] reachable_within(g, multi, q, d + 1) ==> reachable_within(g, multi, q, d),
        d <= n,
        reachable_within(g, multi, p, n),
    ensures
        reachable_within(g, multi, p, d),
    decreases n,
{
    if n > d {
        if reachable_within(g, multi, p, (n - 1) as nat) {
            lemma_closed(g, multi, d, p, (n - 1) as nat);
        } else {
            let u = choose|u: Point|
                #[trigger] step(g, u, p) && reachable_within(g, multi, u, (n - 1) as nat);
            lemma_closed(g, multi, d, u, (n - 1) as nat);
            assert(reachable_within(g, multi, p, d + 1));
        }
    }
}

/// Breadth-first search over the grid, level by level, from every seed of the
/// chosen variant: the least number of steps to a goal cell, or `Unreachable`.
///
/// A cell is marked when it is first reached, and level `d` holds exactly the
/// cells first reached after `d` steps.
pub fn shortest_path(grid: &Matrix<u8>, multi: bool) -> (r: Result<usize, SearchError>)
    requires
        grid.wf(),
    ensures
        search_outcome(*grid, multi, r),
{
    let total = grid.data.len();
    let cols = grid.cols;
    let ghost g = *grid;
    let mut visited: Vec<bool> = Vec::new();
    let mut i: usize = 0;
    while i < total
        invariant
            i <= total,
            visited@.len() == i,
            forall|k: int| 0 <= k < i ==> !visited@[k],
        decreases total - i,
    {
        visited.push(false);
        i += 1;
    }

    let mut frontier: Vec<Point> = Vec::new();
    let ghost mut vis_set: Set<int> = Set::empty();
    let mut count: usize = 0;
    let mut i: usize = 0;
    while i < total
        invariant
            g == *grid,
            grid.wf(),
            total == grid.data@.len(),
            cols == grid.cols,
            visited@.len() == total,
            i <= total,
            count <= i,
            forall|k: int| i <= k < total ==> !visited@[k],
            forall|q: Point|
                grid.in_bounds(q) && index_of(cols as int, q) < i ==> (visited@[index_of(
                    cols as int,
                    q,
                )] <==> is_start_spec(grid.cell(q), multi)),
            forall|k: int|
                0 <= k < frontier@.len() ==> grid.in_bounds(#[trigger] frontier@[k])
                    && reachable_within(g, multi, frontier@[k], 0),
            forall|q: Point|
                grid.in_bounds(q) && index_of(cols as int, q) < i && is_start_spec(
                    grid.cell(q),
                    multi,
                ) ==> frontier@.contains(q),
            vis_set.finite(),
            vis_set.len() == count,
            forall|k: int| vis_set.contains(k) <==> (0 <= k < total && visited@[k]),
        decreases total - i,
    {
        proof {
            assert(cols > 0) by (nonlinear_arith)
                requires
                    i < grid.rows * cols,
                    cols >= 0,
                    grid.rows >= 0,
            ;
            lemma_point_of_index(grid.rows as int, cols as int, i as int);
        }
        let p = Point::new(i % cols, i / cols);
        assert(index_of(cols as int, p) == i);
        let ghost old_frontier = frontier@;
        if is_start(grid.data[i], multi) {
            visited.set(i, true);
            frontier.push(p);
            proof {
                vis_set = vis_set.insert(i as int);
            }
            count += 1;
        }
        proof {
            assert forall|q: Point|
                grid.in_bounds(q) && index_of(cols as int, q) < i + 1 implies (visited@[index_of(
                cols as int,
                q,
            )] <==> is_start_spec(grid.cell(q), multi)) by {
                if index_of(cols as int, q) == i {
                    lemma_index_injective(cols as int, p, q);
                }
            }
            assert forall|q: Point|
                grid.in_bounds(q) && index_of(cols as int, q) < i + 1 && is_start_spec(
                    grid.cell(q),
                    multi,
                ) implies frontier@.contains(q) by {
                if index_of(cols as int, q) == i {
                    lemma_index_injective(cols as int, p, q);
                    assert(frontier@[frontier@.len() - 1] == p);
                } else {
                    assert(old_frontier.contains(q));
                    let k = choose|k: int| 0 <= k < old_frontier.len() && old_frontier[k] == q;
                    assert(frontier@[k] == q);
                }
            }
        }
        i += 1;
    }
    proof {
        assert forall|q: Point| grid.in_bounds(q) implies (visited@[index_of(cols as int, q)]
            <==> reachable_within(g, multi, q, 0)) by {
            lemma_index_in_range(grid.rows as int, cols as int, q);
        }
        assert forall|q: Point| first_reached_at(g, multi, q, 0) implies frontier@.contains(q) by {
            lemma_index_in_range(grid.rows as int, cols as int, q);
        }
    }

    let mut d: usize = 0;
    loop
        invariant
            g == *grid,
            grid.wf(),
            total == grid.data@.len(),
            cols == grid.cols,
            visited@.len() == total,
            forall|q: Point|
                grid.in_bounds(q) ==> (visited@[index_of(cols as int, q)] <==> reachable_within(
                    g,
                    multi,
                    q,
                    d as nat,
                )),
            forall|k: int|
                0 <= k < frontier@.len() ==> grid.in_bounds(#[trigger] frontier@[k])
                    && reachable_within(g, multi, frontier@[k], d as nat),
            forall|q: Point| first_reached_at(g, multi, q, d as nat) ==> frontier@.contains(q),
            forall|m: nat| m < d ==> !#[trigger] goal_within(g, multi, m),
            vis_set.finite(),
            vis_set.len() == count,
            count <= total,
            d <= count,
            forall|k: int| vis_set.contains(k) <==> (0 <= k < total && visited@[k]),
        decreases total - count,
    {
        let mut i: usize = 0;
        while i < frontier.len()
            invariant
                g == *grid,
                grid.wf(),
                cols == grid.cols,
                forall|k: int|
                    0 <= k < frontier@.len() ==> grid.in_bounds(#[trigger] frontier@[k])
                        && reachable_within(g, multi, frontier@[k], d as nat),
                forall|k: int| 0 <= k < i ==> !is_goal_spec(grid.cell(#[trigger] frontier@[k])),
                forall|m: nat| m < d ==> !#[trigger] goal_within(g, multi, m),
            decreases frontier.len() - i,
        {
            let p = frontier[i];
            if is_goal(grid.data[grid.index(&p)]) {
                assert(goal_within(g, multi, d as nat));
                return Ok(d);
            }
            i += 1;
        }
        proof {
            if goal_within(g, multi, d as nat) {
                let p = choose|p: Point|
                    #[trigger] reachable_within(g, multi, p, d as nat) && is_goal_spec(g.cell(p));
                if d > 0 && reachable_within(g, multi, p, (d - 1) as nat) {
                    assert(goal_within(g, multi, (d - 1) as nat));
                } else {
                    assert(frontier@.contains(p));
                }
            }
        }

        let ghost count_start = count;
        let mut next: Vec<Point> = Vec::new();
        let mut i: usize = 0;
        while i < frontier.len()
            invariant
                g == *grid,
                grid.wf(),
                total == grid.data@.len(),
                cols == grid.cols,
                visited@.len() == total,
                i <= frontier@.len(),
                forall|k: int|
                    0 <= k < frontier@.len() ==> grid.in_bounds(#[trigger] frontier@[k])
                        && reachable_within(g, multi, frontier@[k], d as nat),
                forall|q: Point|
                    grid.in_bounds(q) && #[trigger] visited@[index_of(cols as int, q)]
                        ==> reachable_within(g, multi, q, (d + 1) as nat),
                forall|q: Point|
                    grid.in_bounds(q) && reachable_within(g, multi, q, d as nat)
                        ==> #[trigger] visited@[index_of(cols as int, q)],
                forall|k: int, v: Point|
                    0 <= k < i && #[trigger] step(g, frontier@[k], v) ==> visited@[index_of(
                        cols as int,
                        v,
                    )],
                forall|k: int|
                    0 <= k < next@.len() ==> grid.in_bounds(#[trigger] next@[k])
                        && reachable_within(g, multi, next@[k], (d + 1) as nat),
                forall|q: Point|
                    grid.in_bounds(q) && visited@[index_of(cols as int, q)]
                        && !reachable_within(g, multi, q, d as nat) ==> next@.contains(q),
                vis_set.finite(),
                vis_set.len() == count,
                count <= total,
                count == count_start + next@.len(),
                forall|k: int| vis_set.contains(k) <==> (0 <= k < total && visited@[k]),
            decreases frontier.len() - i,
        {
            let u = frontier[i];
            let hu = grid.data[grid.index(&u)];
            let nbs = grid.get_neighbours(&u);
            let mut j: usize = 0;
            while j < nbs.len()
                invariant
                    g == *grid,
                    grid.wf(),
                    total == grid.data@.len(),
                    cols == grid.cols,
                    visited@.len() == total,
                    i < frontier@.len(),
                    u == frontier@[i as int],
                    grid.in_bounds(u),
                    reachable_within(g, multi, u, d as nat),
                    hu == grid.cell(u),
                    j <= nbs@.len(),
                    forall|q: Point| grid.adjacent(u, q) <==> nbs@.contains(q),
                    forall|q: Point|
                        grid.in_bounds(q) && #[trigger] visited@[index_of(cols as int, q)]
                            ==> reachable_within(g, multi, q, (d + 1) as nat),
                    forall|q: Point|
                        grid.in_bounds(q) && reachable_within(g, multi, q, d as nat)
                            ==> #[trigger] visited@[index_of(cols as int, q)],
                    forall|k: int, v: Point|
                        0 <= k < i && #[trigger] step(g, frontier@[k], v) ==> visited@[index_of(
                            cols as int,
                            v,
                        )],
                    forall|jj: int|
                        0 <= jj < j && step(g, u, #[trigger] nbs@[jj]) ==> visited@[index_of(
                            cols as int,
                            nbs@[jj],
                        )],
                    forall|k: int|
                        0 <= k < next@.len() ==> grid.in_bounds(#[trigger] next@[k])
                            && reachable_within(g, multi, next@[k], (d + 1) as nat),
                    forall|q: Point|
                        grid.in_bounds(q) && visited@[index_of(cols as int, q)]
                            && !reachable_within(g, multi, q, d as nat) ==> next@.contains(q),
                    vis_set.finite(),
                    vis_set.len() == count,
                    count <= total,
                    count == count_start + next@.len(),
                    forall|k: int| vis_set.contains(k) <==> (0 <= k < total && visited@[k]),
                decreases nbs.len() - j,
            {
                let v = nbs[j];
                assert(nbs@.contains(v));
                let iv = grid.index(&v);
                let hv = grid.data[iv];
                if can_move(hu, hv) && !visited[iv] {
                    assert(step(g, u, v));
                    assert(reachable_within(g, multi, v, (d + 1) as nat));
                    let ghost old_visited = visited@;
                    let ghost old_next = next@;
                    visited.set(iv, true);
                    next.push(v);
                    proof {
                        assert(!vis_set.contains(iv as int));
                        vis_set = vis_set.insert(iv as int);
                        lemma_int_range(0, total as int);
                        assert(vis_set.subset_of(set_int_range(0, total as int)));
                        lemma_len_subset(vis_set, set_int_range(0, total as int));
                        assert forall|q: Point| grid.in_bounds(q) && index_of(cols as int, q)
                            == iv implies q == v by {
                            lemma_index_injective(cols as int, v, q);
                        }
                        assert(next@[next@.len() - 1] == v);
                        assert forall|q: Point|
                            grid.in_bounds(q) && reachable_within(g, multi, q, d as nat) implies
                            #[trigger] visited@[index_of(cols as int, q)] by {
                            lemma_index_in_range(grid.rows as int, cols as int, q);
                            if index_of(cols as int, q) != iv {
                                assert(old_visited[index_of(cols as int, q)]);
                            }
                        }
                        assert forall|k: int, w: Point|
                            0 <= k < i && #[trigger] step(g, frontier@[k], w) implies visited@[index_of(
                            cols as int,
                            w,
                        )] by {
                            lemma_index_in_range(grid.rows as int, cols as int, w);
                            if index_of(cols as int, w) != iv {
                                assert(old_visited[index_of(cols as int, w)]);
                            }
                        }
                        assert forall|jj: int|
                            0 <= jj < j && step(g, u, #[trigger] nbs@[jj]) implies visited@[index_of(
                            cols as int,
                            nbs@[jj],
                        )] by {
                            lemma_index_in_range(grid.rows as int, cols as int, nbs@[jj]);
                            if index_of(cols as int, nbs@[jj]) != iv {
                                assert(old_visited[index_of(cols as int, nbs@[jj])]);
                            }
                        }
                        assert forall|q: Point|
                            grid.in_bounds(q) && visited@[index_of(cols as int, q)]
                                && !reachable_within(g, multi, q, d as nat) implies next@.contains(
                            q,
                        ) by {
                            lemma_index_in_range(grid.rows as int, cols as int, q);
                            if index_of(cols as int, q) != iv {
                                assert(old_visited[index_of(cols as int, q)]);
                                assert(old_next.contains(q));
                                let k = choose|k: int| 0 <= k < old_next.len() && old_next[k] == q;
                                assert(next@[k] == q);
                            }
                        }
                    }
                    count += 1;
                }
                j += 1;
            }
            proof {
                assert forall|v: Point| #[trigger] step(g, u, v) implies visited@[index_of(
                    cols as int,
                    v,
                )] by {
                    assert(nbs@.contains(v));
                    let jj = choose|jj: int| 0 <= jj < nbs@.len() && nbs@[jj] == v;
                    assert(step(g, u, nbs@[jj]));
                }
            }
            i += 1;
        }

        proof {
            assert forall|q: Point| grid.in_bounds(q) implies (visited@[index_of(cols as int, q)]
                <==> reachable_within(g, multi, q, (d + 1) as nat)) by {
                if reachable_within(g, multi, q, (d + 1) as nat) && !reachable_within(
                    g,
                    multi,
                    q,
                    d as nat,
                ) {
                    let u = choose|u: Point|
                        #[trigger] step(g, u, q) && reachable_within(g, multi, u, d as nat);
                    if d > 0 && reachable_within(g, multi, u, (d - 1) as nat) {
                        assert(reachable_within(g, multi, q, d as nat));
                    } else {
                        assert(first_reached_at(g, multi, u, d as nat));
                        assert(frontier@.contains(u));
                        let k = choose|k: int| 0 <= k < frontier@.len() && frontier@[k] == u;
                        assert(step(g, frontier@[k], q));
                    }
                }
            }
        }

        if next.len() == 0 {
            proof {
                assert forall|q: Point| #[trigger]
                    reachable_within(g, multi, q, (d + 1) as nat) implies reachable_within(
                    g,
                    multi,
                    q,
                    d as nat,
                ) by {
                    if !reachable_within(g, multi, q, d as nat) {
                        assert(g.in_bounds(q)) by {
                            if !g.in_bounds(q) {
                                let u = choose|u: Point|
                                    #[trigger] step(g, u, q) && reachable_within(
                                        g,
                                        multi,
                                        u,
                                        d as nat,
                                    );
                            }
                        }
                        assert(next@.contains(q));
                    }
                }
                assert forall|n: nat| !#[trigger] goal_within(g, multi, n) by {
                    if n > d && goal_within(g, multi, n) {
                        let p = choose|p: Point|
                            #[trigger] reachable_within(g, multi, p, n) && is_goal_spec(g.cell(p));
                        lemma_closed(g, multi, d as nat, p, n);
                        assert(goal_within(g, multi, d as nat));
                    }
                }
            }
            return Err(SearchError::Unreachable);
        }
        proof {
            assert forall|q: Point| first_reached_at(g, multi, q, (d + 1) as nat) implies next@.contains(
                q,
            ) by {
                if !g.in_bounds(q) {
                    let u = choose|u: Point|
                        #[trigger] step(g, u, q) && reachable_within(g, multi, u, d as nat);
                }
            }
        }
        frontier = next;
        d += 1;
    }
}

/// Search from the start cell `S` alone.
pub fn shortest_path_single_source(grid: &Matrix<u8>) -> (r: Result<usize, SearchError>)
    requires
        grid.wf(),
    ensures
        search_outcome(*grid, false, r),
{
    shortest_path(grid, false)
}

/// Search from `S` and from every cell of elevation `a` at once.
pub fn shortest_path_multi_source(grid: &Matrix<u8>) -> (r: Result<usize, SearchError>)
    requires
        grid.wf(),
    ensures
        search_outcome(*grid, true, r),
{
    shortest_path(grid, true)
}

/// The width of the grid: the length of the first row, or zero without rows.
pub open spec fn width(raw: Seq<String>) -> int {
    if raw.len() == 0 {
        0
    } else {
        line_bytes(raw[0]).len() as int
    }
}

/// Every row has as many bytes as the first.
pub open spec fn rectangular(raw: Seq<String>) -> bool {
    forall|y: int| 0 <= y < raw.len() ==> #[trigger] line_bytes(raw[y]).len() == width(raw)
}

/// Every byte of every row is a recognised symbol.
pub open spec fn symbols_valid(raw: Seq<String>) -> bool {
    forall|y: int, x: int|
        0 <= y < raw.len() && 0 <= x < line_bytes(raw[y]).len() ==> (#[trigger] elevation_spec(
            line_bytes(raw[y])[x],
        )) is Some
}

/// `g` holds, row by row, the elevations of the symbols of `raw`.
pub open spec fn grid_of(raw: Seq<String>, g: Matrix<u8>) -> bool {
    &&& g.wf()
    &&& g.rows == raw.len()
    &&& g.cols == width(raw)
    &&& forall|p: Point|
        g.in_bounds(p) ==> elevation_spec(line_bytes(raw[p.y as int])[p.x as int]) == Some(
            #[trigger] g.cell(p),
        )
}

proof fn lemma_index_before(cols: int, p: Point, y: int, x: int)
    requires
        p.x < cols,
        p.y < y || (p.y == y && p.x < x),
        0 <= x,
    ensures
        index_of(cols, p) < y * cols + x,
{
    if p.y < y {
        assert(p.y * cols + p.x < y * cols + x) by (nonlinear_arith)
            requires
                p.y < y,
                p.x < cols,
                0 <= x,
        ;
    }
}

/// Turns rows of symbols into a height map: `Ragged` where the rows differ in
/// length, else `InvalidSymbol` where some byte is not `S`, `E` or `a`..`z`.
pub fn parse_input(raw_input: &[String]) -> (r: Result<Matrix<u8>, ParseError>)
    ensures
        match r {
            Ok(g) => rectangular(raw_input@) && symbols_valid(raw_input@) && grid_of(
                raw_input@,
                g,
            ),
            Err(ParseError::Ragged) => !rectangular(raw_input@),
            Err(ParseError::InvalidSymbol) => rectangular(raw_input@) && !symbols_valid(
                raw_input@,
            ),
        },
{
    let rows = raw_input.len();
    let cols = if rows == 0 {
        0
    } else {
        raw_input[0].as_str().as_bytes().len()
    };
    let mut y: usize = 0;
    while y < rows
        invariant
            rows == raw_input@.len(),
            cols == width(raw_input@),
            y <= rows,
            forall|yy: int| 0 <= yy < y ==> #[trigger] line_bytes(raw_input@[yy]).len() == cols,
        decreases rows - y,
    {
        if raw_input[y].as_str().as_bytes().len() != cols {
            assert(line_bytes(raw_input@[y as int]).len() != width(raw_input@));
            return Err(ParseError::Ragged);
        }
        y += 1;
    }
    let mut data: Vec<u8> = Vec::new();
    let mut y: usize = 0;
    while y < rows
        invariant
            rows == raw_input@.len(),
            cols == width(raw_input@),
            rectangular(raw_input@),
            y <= rows,
            data@.len() == y * cols,
            forall|yy: int, x: int|
                0 <= yy < y && 0 <= x < cols ==> (#[trigger] elevation_spec(
                    line_bytes(raw_input@[yy])[x],
                )) is Some,
            forall|p: Point|
                p.x < cols && p.y < y ==> elevation_spec(
                    line_bytes(raw_input@[p.y as int])[p.x as int],
                ) == Some(#[trigger] data@[index_of(cols as int, p)]),
        decreases rows - y,
    {
        let bytes = raw_input[y].as_str().as_bytes();
        assert(bytes@ == line_bytes(raw_input@[y as int]));
        let mut x: usize = 0;
        while x < cols
            invariant
                rows == raw_input@.len(),
                cols == width(raw_input@),
                rectangular(raw_input@),
                y < rows,
                x <= cols,
                bytes@ == line_bytes(raw_input@[y as int]),
                bytes@.len() == cols,
                data@.len() == y * cols + x,
                forall|yy: int, xx: int|
                    0 <= yy < y && 0 <= xx < cols ==> (#[trigger] elevation_spec(
                        line_bytes(raw_input@[yy])[xx],
                    )) is Some,
                forall|xx: int| 0 <= xx < x ==> (#[trigger] elevation_spec(bytes@[xx])) is Some,
                forall|p: Point|
                    p.x < cols && (p.y < y || (p.y == y && p.x < x)) ==> elevation_spec(
                        line_bytes(raw_input@[p.y as int])[p.x as int],
                    ) == Some(#[trigger] data@[index_of(cols as int, p)]),
            decreases cols - x,
        {
            match elevation(bytes[x]) {
                Ok(v) => {
                    let ghost old_data = data@;
                    data.push(v);
                    proof {
                        assert forall|p: Point|
                            p.x < cols && (p.y < y || (p.y == y && p.x < x + 1)) implies elevation_spec(
                            line_bytes(raw_input@[p.y as int])[p.x as int],
                        ) == Some(#[trigger] data@[index_of(cols as int, p)]) by {
                            if p.y == y && p.x == x {
                            } else {
                                lemma_index_before(cols as int, p, y as int, x as int);
                                assert(data@[index_of(cols as int, p)] == old_data[index_of(
                                    cols as int,
                                    p,
                                )]);
                            }
                        }
                    }
                },
                Err(e) => {
                    assert(!symbols_valid(raw_input@)) by {
                        assert(elevation_spec(line_bytes(raw_input@[y as int])[x as int]) is None);
                    }
                    return Err(e);
                },
            }
            x += 1;
        }
        proof {
            assert((y + 1) * cols == y * cols + cols) by (nonlinear_arith);
        }
        y += 1;
    }
    let g = Matrix { rows, cols, data };
    proof {
        assert(data@.len() == rows * cols);
        assert forall|yy: int, x: int|
            0 <= yy < raw_input@.len() && 0 <= x < line_bytes(raw_input@[yy]).len() implies (
            #[trigger] elevation_spec(line_bytes(raw_input@[yy])[x])) is Some by {
            assert(line_bytes(raw_input@[yy]).len() == width(raw_input@));
        }
    }
    Ok(g)
}

/// Parses the rows and runs both searches: from `S` alone, then from `S` and
/// every `a`.
pub fn solve(raw_input: &[String]) -> (r: Result<
    (Result<usize, SearchError>, Result<usize, SearchError>),
    ParseError,
>)
    ensures
        match r {
            Ok((single, multi)) => rectangular(raw_input@) && symbols_valid(raw_input@)
                && exists|g: Matrix<u8>|
                grid_of(raw_input@, g) && search_outcome(g, false, single) && search_outcome(
                    g,
                    true,
                    multi,
                ),
            Err(ParseError::Ragged) => !rectangular(raw_input@),
            Err(ParseError::InvalidSymbol) => rectangular(raw_input@) && !symbols_valid(
                raw_input@,
            ),
        },
{
    let input = parse_input(raw_input)?;
    let single = part1(&input);
    let multi = part2(&input);
    Ok((single, multi))
}

/// The fewest steps from `S` to the goal.
pub fn part1(input: &Matrix<u8>) -> (r: Result<usize, SearchError>)
    requires
        input.wf(),
    ensures
        search_outcome(*input, false, r),
{
    shortest_path_single_source(input)
}

/// The fewest steps from `S` or any `a` to the goal.
pub fn part2(input: &Matrix<u8>) -> (r: Result<usize, SearchError>)
    requires
        input.wf(),
    ensures
        search_outcome(*input, true, r),
{
    shortest_path_multi_source(input)
}

/// A path of the search: it starts on a seed, and each cell is one legal step
/// from the one before.
pub open spec fn is_search_path(g: Matrix<u8>, multi: bool, path: Seq<Point>) -> bool {
    &&& path.len() >= 1
    &&& g.in_bounds(path[0])
    &&& is_start_spec(g.cell(path[0]), multi)
    &&& forall|i: int| 0 <= i < path.len() - 1 ==> #[trigger] step(g, path[i], path[i + 1])
}

/// A cell reachable within `n` steps is the end of a search path of at most
/// `n` steps; every step of it climbs by at most one unit.
pub proof fn lemma_path_of(g: Matrix<u8>, multi: bool, p: Point, n: nat) -> (path: Seq<Point>)
    requires
        reachable_within(g, multi, p, n),
    ensures
        is_search_path(g, multi, path),
        path.len() <= n + 1,
        path.last() == p,
        forall|i: int|
            0 <= i < path.len() - 1 ==> effective(g.cell(#[trigger] path[i + 1])) <= effective(
                g.cell(path[i]),
            ) + 1,
    decreases n,
{
    if n == 0 {
        let path = seq![p];
        path
    } else if reachable_within(g, multi, p, (n - 1) as nat) {
        lemma_path_of(g, multi, p, (n - 1) as nat)
    } else {
        let u = choose|u: Point|
            #[trigger] step(g, u, p) && reachable_within(g, multi, u, (n - 1) as nat);
        let prev = lemma_path_of(g, multi, u, (n - 1) as nat);
        let path = prev.push(p);
        assert forall|i: int| 0 <= i < path.len() - 1 implies #[trigger] step(g, path[i], path[i + 1]) by {
            if i < prev.len() - 1 {
                assert(step(g, prev[i], prev[i + 1]));
            } else {
                assert(path[i] == u);
            }
        }
        assert forall|i: int|
            0 <= i < path.len() - 1 implies effective(g.cell(#[trigger] path[i + 1])) <= effective(
            g.cell(path[i]),
        ) + 1 by {
            assert(step(g, path[i], path[i + 1]));
        }
        path
    }
}

/// The end of a search path of `k` steps is reachable within `k` steps.
proof fn lemma_path_reaches(g: Matrix<u8>, multi: bool, path: Seq<Point>)
    requires
        is_search_path(g, multi, path),
    ensures
        reachable_within(g, multi, path.last(), (path.len() - 1) as nat),
    decreases path.len(),
{
    if path.len() > 1 {
        let prev = path.drop_last();
        assert forall|i: int| 0 <= i < prev.len() - 1 implies #[trigger] step(g, prev[i], prev[i + 1]) by {
            assert(step(g, path[i], path[i + 1]));
        }
        lemma_path_reaches(g, multi, prev);
        let k = (path.len() - 1) as nat;
        let i = path.len() - 2;
        assert(step(g, path[i], path[i + 1]));
        assert(prev.last() == path[i] && path.last() == path[i + 1]);
        assert(reachable_within(g, multi, path.last(), k));
    }
}

/// Where the search returns `Ok(n)`, some search path of exactly `n` steps
/// ends on a goal, and none of its steps climbs by more than one unit.
pub proof fn lemma_result_has_path(g: Matrix<u8>, multi: bool, n: usize) -> (path: Seq<Point>)
    requires
        search_outcome(g, multi, Ok(n)),
    ensures
        is_search_path(g, multi, path),
        path.len() == n + 1,
        is_goal_spec(g.cell(path.last())),
        forall|i: int|
            0 <= i < path.len() - 1 ==> effective(g.cell(#[trigger] path[i + 1])) <= effective(
                g.cell(path[i]),
            ) + 1,
{
    let p = choose|p: Point| #[trigger] reachable_within(g, multi, p, n as nat) && is_goal_spec(g.cell(p));
    let path = lemma_path_of(g, multi, p, n as nat);
    if path.len() < n + 1 {
        lemma_path_reaches(g, multi, path);
        let k = (path.len() - 1) as nat;
        assert(goal_within(g, multi, k));
        assert(k < n);
    }
    path
}

/// Everything reachable stays inside a region that holds every seed and that
/// no step leaves.
proof fn lemma_stays_inside(
    g: Matrix<u8>,
    multi: bool,
    inside: spec_fn(Point) -> bool,
    p: Point,
    n: nat,
)
    requires
        forall|q: Point| g.in_bounds(q) && is_start_spec(g.cell(q), multi) ==> #[trigger] inside(q),
        forall|u: Point, v: Point| inside(u) && #[trigger] step(g, u, v) ==> inside(v),
        reachable_within(g, multi, p, n),
    ensures
        inside(p),
    decreases n,
{
    if n > 0 {
        if reachable_within(g, multi, p, (n - 1) as nat) {
            lemma_stays_inside(g, multi, inside, p, (n - 1) as nat);
        } else {
            let u = choose|u: Point|
                #[trigger] step(g, u, p) && reachable_within(g, multi, u, (n - 1) as nat);
            lemma_stays_inside(g, multi, inside, u, (n - 1) as nat);
        }
    }
}

/// A walled-off goal is unreachable. Where a region holds every seed and no
/// goal, and each neighbour of a cell in it is either in it or a wall cell at
/// least two units higher than that cell, no number of steps reaches a goal.
pub proof fn lemma_walled_off_unreachable(
    g: Matrix<u8>,
    multi: bool,
    inside: spec_fn(Point) -> bool,
    wall: spec_fn(Point) -> bool,
)
    requires
        forall|q: Point| g.in_bounds(q) && is_start_spec(g.cell(q), multi) ==> #[trigger] inside(q),
        forall|q: Point| g.in_bounds(q) && #[trigger] inside(q) ==> !is_goal_spec(g.cell(q)),
        forall|u: Point, v: Point|
            inside(u) && g.in_bounds(u) && #[trigger] g.adjacent(u, v) ==> inside(v) || wall(v),
        forall|u: Point, v: Point|
            inside(u) && g.in_bounds(u) && #[trigger] g.adjacent(u, v) && !inside(v) && wall(v) ==> effective(
                g.cell(v),
            ) >= effective(g.cell(u)) + 2,
    ensures
        forall|n: nat| !#[trigger] goal_within(g, multi, n),
{
    assert forall|u: Point, v: Point| inside(u) && #[trigger] step(g, u, v) implies inside(v) by {
        assert(g.adjacent(u, v));
        if !inside(v) {
            assert(wall(v));
        }
    }
    assert forall|n: nat| !#[trigger] goal_within(g, multi, n) by {
        if goal_within(g, multi, n) {
            let p = choose|p: Point| #[trigger] reachable_within(g, multi, p, n) && is_goal_spec(g.cell(p));
            lemma_stays_inside(g, multi, inside, p, n);
            lemma_reachable_in_bounds(g, multi, p, n);
        }
    }
}

/// Reachable cells lie in the grid.
proof fn lemma_reachable_in_bounds(g: Matrix<u8>, multi: bool, p: Point, n: nat)
    requires
        reachable_within(g, multi, p, n),
    ensures
        g.in_bounds(p),
    decreases n,
{
    if n > 0 && reachable_within(g, multi, p, (n - 1) as nat) {
        lemma_reachable_in_bounds(g, multi, p, (n - 1) as nat);
    }
}

/// A search has exactly one admissible outcome, so repeated runs on the same
/// grid and variant agree.
pub proof fn lemma_search_deterministic(
    g: Matrix<u8>,
    multi: bool,
    a: Result<usize, SearchError>,
    b: Result<usize, SearchError>,
)
    requires
        search_outcome(g, multi, a),
        search_outcome(g, multi, b),
    ensures
        a == b,
{
    if a is Ok && b is Ok {
        let x = a->Ok_0 as nat;
        let y = b->Ok_0 as nat;
        if x < y {
            assert(!goal_within(g, multi, x));
        } else if y < x {
            assert(!goal_within(g, multi, y));
        }
        assert(a == b);
    } else if a is Ok {
        assert(!goal_within(g, multi, a->Ok_0 as nat));
    } else if b is Ok {
        assert(!goal_within(g, multi, b->Ok_0 as nat));
    } else {
        assert(a->Err_0 == b->Err_0);
    }
}

/// Going down, by any amount, or staying level is always a legal step.
pub proof fn lemma_descent_allowed(g: Matrix<u8>, u: Point, v: Point)
    requires
        g.in_bounds(u),
        g.adjacent(u, v),
        effective(g.cell(v)) <= effective(g.cell(u)),
    ensures
        step(g, u, v),
{
}

/// Climbing by two or more units is never a legal step.
pub proof fn lemma_ascent_bounded(g: Matrix<u8>, u: Point, v: Point)
    requires
        effective(g.cell(v)) >= effective(g.cell(u)) + 2,
    ensures
        !step(g, u, v),
{
}

/// Every cell reachable from `S` alone is reachable, in as many steps, when
/// every `a` is a seed as well.
pub proof fn lemma_single_within_multi(g: Matrix<u8>, p: Point, n: nat)
    requires
        reachable_within(g, false, p, n),
    ensures
        reachable_within(g, true, p, n),
    decreases n,
{
    if n > 0 {
        if reachable_within(g, false, p, (n - 1) as nat) {
            lemma_single_within_multi(g, p, (n - 1) as nat);
        } else {
            let u = choose|u: Point|
                #[trigger] step(g, u, p) && reachable_within(g, false, u, (n - 1) as nat);
            lemma_single_within_multi(g, u, (n - 1) as nat);
        }
    }
}

/// More seeds never lengthen the search: where the single-source search finds
/// a goal, the multi-source search finds one in at most as many steps.
pub proof fn lemma_more_seeds_no_longer(
    g: Matrix<u8>,
    single: Result<usize, SearchError>,
    multi: Result<usize, SearchError>,
)
    requires
        search_outcome(g, false, single),
        search_outcome(g, true, multi),
        single is Ok,
    ensures
        multi is Ok,
        multi->Ok_0 <= single->Ok_0,
{
    let n = single->Ok_0 as nat;
    let p = choose|p: Point| #[trigger] reachable_within(g, false, p, n) && is_goal_spec(g.cell(p));
    lemma_single_within_multi(g, p, n);
    assert(goal_within(g, true, n));
    if let Ok(m) = multi {
        if m > single->Ok_0 {
            assert(!goal_within(g, true, n));
        }
    }
}

} // verus!
