use vstd::prelude::*;
use crate::text::line_bytes;

verus! {

/// A tree's position: column `x`, row `y`.
#[derive(Clone, Copy, Debug, PartialEq, Eq, Structural)]
pub struct Point {
    pub x: usize,
    pub y: usize,
}

impl Point {
    pub fn new(x: usize, y: usize) -> (r: Point)
        ensures
            r.x == x && r.y == y,
    {
        Point { x, y }
    }
}

pub open spec fn view_grid(g: Seq<Vec<u8>>) -> Seq<Seq<u8>> {
    g.map_values(|r: Vec<u8>| r@)
}

/// All rows have `cols` trees, and there is at least one of each.
pub open spec fn grid_wf(g: Seq<Seq<u8>>, cols: int) -> bool {
    g.len() > 0 && cols > 0 && forall|y: int| 0 <= y < g.len() ==> (#[trigger] g[y]).len() == cols
}

/// Column `x` of the grid, top first.
pub open spec fn column(g: Seq<Seq<u8>>, x: int) -> Seq<u8> {
    Seq::new(g.len(), |y: int| g[y][x])
}

/// Every tree of `line` before position `x` is lower than `h`.
pub open spec fn clear_before(line: Seq<u8>, x: int, h: u8) -> bool {
    forall|k: int| 0 <= k < x ==> #[trigger] line[k] < h
}

/// Every tree of `line` after position `x` is lower than `h`.
pub open spec fn clear_after(line: Seq<u8>, x: int, h: u8) -> bool {
    forall|k: int| x < k < line.len() ==> #[trigger] line[k] < h
}

/// The tree at `(x, y)` can be seen from some edge of the grid.
pub open spec fn visible(g: Seq<Seq<u8>>, x: int, y: int) -> bool {
    let h = g[y][x];
    clear_before(g[y], x, h) || clear_after(g[y], x, h) || clear_before(column(g, x), y, h)
        || clear_after(column(g, x), y, h)
}

/// Visible trees among the first `n` of row `y`.
pub open spec fn row_count(g: Seq<Seq<u8>>, y: int, n: int) -> int
    decreases n,
{
    if n <= 0 {
        0
    } else {
        row_count(g, y, n - 1) + if visible(g, n - 1, y) { 1int } else { 0int }
    }
}

/// Visible trees among the first `m` rows.
pub open spec fn visible_count(g: Seq<Seq<u8>>, m: int) -> int
    decreases m,
{
    if m <= 0 {
        0
    } else {
        visible_count(g, m - 1) + row_count(g, m - 1, g[0].len() as int)
    }
}

/// Whether the tree at `(x, y)` can be seen from an edge.
fn is_visible(g: &Vec<Vec<u8>>, cols: usize, x: usize, y: usize) -> (r: bool)
    requires
        grid_wf(view_grid(g@), cols as int),
        x < cols,
        y < g@.len(),
    ensures
        r == visible(view_grid(g@), x as int, y as int),
{
    let ghost v = view_grid(g@);
    let rows = g.len();
    assert(v[y as int] == g@[y as int]@);
    let h = g[y][x];
    let mut k: usize = 0;
    let mut left = true;
    while k < x
        invariant
            k <= x,
            x < cols,
            v == view_grid(g@),
            grid_wf(v, cols as int),
            y < g@.len(),
            h == v[y as int][x as int],
            left == clear_before(v[y as int], k as int, h),
        decreases x - k,
    {
        assert(v[y as int] == g@[y as int]@);
        if g[y][k] >= h {
            left = false;
        }
        k += 1;
    }
    let mut k: usize = x + 1;
    let mut right = true;
    while k < cols
        invariant
            x < k <= cols,
            v == view_grid(g@),
            grid_wf(v, cols as int),
            y < g@.len(),
            h == v[y as int][x as int],
            right == forall|j: int| x < j < k ==> #[trigger] v[y as int][j] < h,
        decreases cols - k,
    {
        assert(v[y as int] == g@[y as int]@);
        if g[y][k] >= h {
            right = false;
        }
        k += 1;
    }
    let mut k: usize = 0;
    let mut up = true;
    while k < y
        invariant
            k <= y,
            y < rows,
            rows == g@.len(),
            x < cols,
            v == view_grid(g@),
            grid_wf(v, cols as int),
            h == v[y as int][x as int],
            up == clear_before(column(v, x as int), k as int, h),
        decreases y - k,
    {
        assert(v[k as int] == g@[k as int]@);
        assert(v[k as int].len() == cols);
        assert(column(v, x as int)[k as int] == g@[k as int]@[x as int]);
        if g[k][x] >= h {
            up = false;
        }
        k += 1;
    }
    let mut k: usize = y + 1;
    let mut down = true;
    while k < rows
        invariant
            y < k <= rows,
            rows == g@.len(),
            x < cols,
            v == view_grid(g@),
            grid_wf(v, cols as int),
            h == v[y as int][x as int],
            down == forall|j: int| y < j < k ==> #[trigger] column(v, x as int)[j] < h,
        decreases rows - k,
    {
        assert(v[k as int] == g@[k as int]@);
        assert(v[k as int].len() == cols);
        assert(column(v, x as int)[k as int] == g@[k as int]@[x as int]);
        if g[k][x] >= h {
            down = false;
        }
        k += 1;
    }
    assert(v[y as int].len() == cols);
    left || right || up || down
}

/// How many trees can be seen from outside the grid.
pub fn count_visible(g: &Vec<Vec<u8>>, cols: usize) -> (r: usize)
    requires
        grid_wf(view_grid(g@), cols as int),
        g@.len() * cols <= usize::MAX,
    ensures
        r == visible_count(view_grid(g@), g@.len() as int),
{
    let ghost v = view_grid(g@);
    let rows = g.len();
    let mut total: usize = 0;
    let mut y: usize = 0;
    while y < rows
        invariant
            y <= rows,
            rows == g@.len(),
            v == view_grid(g@),
            grid_wf(v, cols as int),
            rows * cols <= usize::MAX,
            total == visible_count(v, y as int),
            total <= y * cols,
        decreases rows - y,
    {
        let mut x: usize = 0;
        let mut in_row: usize = 0;
        while x < cols
            invariant
                x <= cols,
                y < rows,
                rows == g@.len(),
                v == view_grid(g@),
                grid_wf(v, cols as int),
                in_row == row_count(v, y as int, x as int),
                in_row <= x,
            decreases cols - x,
        {
            if is_visible(g, cols, x, y) {
                in_row += 1;
            }
            x += 1;
        }
        proof {
            assert(v[0].len() == cols);
            assert((y + 1) * cols == y * cols + cols) by (nonlinear_arith);
            assert((y + 1) * cols <= rows * cols) by (nonlinear_arith)
                requires
                    y < rows,
                    cols >= 0,
            ;
        }
        total = total + in_row;
        y += 1;
    }
    total
}

/// Trees seen from just after position `k` of `line`, looking towards its
/// start: up to and including the first at least `h` high, or to the edge.
pub open spec fn view_back(line: Seq<u8>, k: int, h: u8) -> int
    decreases k + 1,
{
    if k < 0 {
        0
    } else if line[k] >= h {
        1
    } else {
        1 + view_back(line, k - 1, h)
    }
}

/// Trees seen from just before position `k` of `line`, looking towards its end.
pub open spec fn view_fwd(line: Seq<u8>, k: int, h: u8) -> int
    decreases line.len() - k,
{
    if k >= line.len() || k < 0 {
        0
    } else if line[k] >= h {
        1
    } else {
        1 + view_fwd(line, k + 1, h)
    }
}

/// The product of the four viewing distances from the tree at `(x, y)`.
pub open spec fn scenic(g: Seq<Seq<u8>>, x: int, y: int) -> int {
    let h = g[y][x];
    view_back(g[y], x - 1, h) * view_fwd(g[y], x + 1, h) * view_back(column(g, x), y - 1, h)
        * view_fwd(column(g, x), y + 1, h)
}

proof fn lemma_view_back_bounds(line: Seq<u8>, k: int, h: u8)
    ensures
        0 <= view_back(line, k, h) <= if k < 0 { 0 } else { k + 1 },
    decreases k + 1,
{
    if k >= 0 {
        lemma_view_back_bounds(line, k - 1, h);
    }
}

proof fn lemma_view_fwd_bounds(line: Seq<u8>, k: int, h: u8)
    requires
        0 <= k,
    ensures
        0 <= view_fwd(line, k, h) <= if k >= line.len() { 0 } else { line.len() - k },
    decreases line.len() - k,
{
    if k < line.len() {
        lemma_view_fwd_bounds(line, k + 1, h);
    }
}

/// Trees seen from `(x, y)` towards the start of `line`, the row or column
/// through it, where the tree stands at position `at`.
fn look_back(line: &Vec<u8>, at: usize, h: u8) -> (r: usize)
    requires
        at < line@.len(),
    ensures
        r == view_back(line@, at - 1, h),
{
    let mut k: usize = at;
    let mut score: usize = 0;
    let mut stop = false;
    while k > 0 && !stop
        invariant
            k <= at,
            at < line@.len(),
            score == at - k,
            !stop ==> score + view_back(line@, k - 1, h) == view_back(line@, at - 1, h),
            stop ==> score == view_back(line@, at - 1, h),
        decreases k,
    {
        k -= 1;
        score += 1;
        if line[k] >= h {
            stop = true;
        }
    }
    score
}

/// Trees seen from position `at` of `line` towards its end.
fn look_fwd(line: &Vec<u8>, at: usize, h: u8) -> (r: usize)
    requires
        at < line@.len(),
    ensures
        r == view_fwd(line@, at + 1, h),
{
    let n = line.len();
    let mut k: usize = at + 1;
    let mut score: usize = 0;
    let mut stop = false;
    while k < line.len() && !stop
        invariant
            at < k <= line@.len(),
            score == k - at - 1,
            !stop ==> score + view_fwd(line@, k as int, h) == view_fwd(line@, at + 1, h),
            stop ==> score == view_fwd(line@, at + 1, h),
        decreases line@.len() - k,
    {
        score += 1;
        if line[k] >= h {
            stop = true;
        }
        k += 1;
    }
    score
}

/// Column `x` of the grid, top first.
fn column_of(g: &Vec<Vec<u8>>, cols: usize, x: usize) -> (r: Vec<u8>)
    requires
        grid_wf(view_grid(g@), cols as int),
        x < cols,
    ensures
        r@ == column(view_grid(g@), x as int),
{
    let ghost v = view_grid(g@);
    let mut r: Vec<u8> = Vec::new();
    let mut y: usize = 0;
    while y < g.len()
        invariant
            y <= g@.len(),
            x < cols,
            v == view_grid(g@),
            grid_wf(v, cols as int),
            r@ == column(v, x as int).subrange(0, y as int),
        decreases g@.len() - y,
    {
        assert(v[y as int] == g@[y as int]@ && v[y as int].len() == cols);
        r.push(g[y][x]);
        assert(r@ =~= column(v, x as int).subrange(0, y as int + 1));
        y += 1;
    }
    assert(r@ =~= column(v, x as int));
    r
}

/// The scenic score of the tree at `(x, y)`.
pub fn get_scenic_score(x: usize, y: usize, input: &Vec<Vec<u8>>, cols: usize) -> (r: u128)
    requires
        grid_wf(view_grid(input@), cols as int),
        input@.len() * cols <= usize::MAX,
        x < cols,
        y < input@.len(),
    ensures
        r == scenic(view_grid(input@), x as int, y as int),
{
    let ghost v = view_grid(input@);
    let rows = input.len();
    let row = &input[y];
    assert(row@ == v[y as int]);
    let h = row[x];
    let col = column_of(input, cols, x);
    let l = look_back(row, x, h);
    let r = look_fwd(row, x, h);
    let u = look_back(&col, y, h);
    let d = look_fwd(&col, y, h);
    proof {
        lemma_view_back_bounds(row@, x - 1, h);
        lemma_view_fwd_bounds(row@, x + 1, h);
        lemma_view_back_bounds(col@, y - 1, h);
        lemma_view_fwd_bounds(col@, y + 1, h);
        let (li, ri, ui, di) = (l as int, r as int, u as int, d as int);
        let (c, n) = (cols as int, rows as int);
        assert(usize::MAX <= 0xffff_ffff_ffff_ffff);
        assert(n >= 1);
        assert(c * n == n * c && 0 <= c * n) by (nonlinear_arith)
            requires
                0 <= c,
                0 <= n,
        ;
        assert(c * c <= 0xffff_ffff_ffff_ffff * 0xffff_ffff_ffff_ffff) by (nonlinear_arith)
            requires
                0 <= c <= 0xffff_ffff_ffff_ffff,
        ;
        assert(li * ri <= c * c) by (nonlinear_arith)
            requires
                0 <= li <= c,
                0 <= ri <= c,
        ;
        assert(ui * di <= n * n) by (nonlinear_arith)
            requires
                0 <= ui <= n,
                0 <= di <= n,
        ;
        assert(li * ri * ui * di <= (c * n) * (c * n)) by (nonlinear_arith)
            requires
                0 <= li * ri <= c * c,
                0 <= ui * di <= n * n,
                0 <= li,
                0 <= ri,
                0 <= ui,
                0 <= di,
        ;
        assert((c * n) * (c * n) <= 0xffff_ffff_ffff_ffff * 0xffff_ffff_ffff_ffff) by (nonlinear_arith)
            requires
                0 <= c * n <= 0xffff_ffff_ffff_ffff,
        ;
        assert(0 <= li * ri) by (nonlinear_arith)
            requires
                0 <= li,
                0 <= ri,
        ;
        assert(0 <= li * ri * ui) by (nonlinear_arith)
            requires
                0 <= li * ri,
                0 <= ui,
        ;
        assert(li * ri * ui <= (c * n) * (c * n)) by (nonlinear_arith)
            requires
                0 <= li * ri <= c * c,
                0 <= ui <= n,
                1 <= n,
                0 <= c,
        ;
    }
    assert((l as int) * (r as int) <= u128::MAX);
    let lr = (l as u128) * (r as u128);
    assert((lr as int) * (u as int) <= u128::MAX);
    let lru = lr * (u as u128);
    assert((lru as int) * (d as int) <= u128::MAX);
    lru * (d as u128)
}

/// The best scenic score of a tree off the edge, or 0 where there is none.
pub fn get_max_scenic_score(input: &Vec<Vec<u8>>, cols: usize) -> (r: u128)
    requires
        grid_wf(view_grid(input@), cols as int),
        input@.len() * cols <= usize::MAX,
    ensures
        forall|x: int, y: int|
            0 < x < cols - 1 && 0 < y < input@.len() - 1 ==> #[trigger] scenic(view_grid(input@), x, y) <= r,
        r == 0 || exists|x: int, y: int|
            0 < x < cols - 1 && 0 < y < input@.len() - 1 && r == #[trigger] scenic(view_grid(input@), x, y),
{
    let ghost v = view_grid(input@);
    let rows = input.len();
    let mut best: u128 = 0;
    let mut x: usize = 1;
    while x < cols - 1
        invariant
            1 <= x,
            x <= cols || cols < 2,
            rows == input@.len(),
            v == view_grid(input@),
            grid_wf(v, cols as int),
            rows * cols <= usize::MAX,
            forall|a: int, b: int| 0 < a < x && 0 < b < rows - 1 ==> #[trigger] scenic(v, a, b) <= best,
            best == 0 || exists|a: int, b: int| 0 < a < cols - 1 && 0 < b < rows - 1 && best == #[trigger] scenic(v, a, b),
        decreases cols - x,
    {
        let mut y: usize = 1;
        while y < rows - 1
            invariant
                1 <= y,
                x < cols - 1,
                1 <= x,
                rows == input@.len(),
                v == view_grid(input@),
                grid_wf(v, cols as int),
                rows * cols <= usize::MAX,
                forall|a: int, b: int| 0 < a < x && 0 < b < rows - 1 ==> #[trigger] scenic(v, a, b) <= best,
                forall|b: int| 0 < b < y && b < rows - 1 ==> #[trigger] scenic(v, x as int, b) <= best,
                best == 0 || exists|a: int, b: int| 0 < a < cols - 1 && 0 < b < rows - 1 && best == #[trigger] scenic(v, a, b),
            decreases rows - y,
        {
            let score = get_scenic_score(x, y, input, cols);
            if score > best {
                best = score;
            }
            y += 1;
        }
        x += 1;
    }
    best
}

/// The lines form a forest: at least one, all as long as the first, which is
/// not empty, and all of digits.
pub open spec fn forest_valid(lines: Seq<String>) -> bool {
    &&& lines.len() > 0
    &&& line_bytes(lines[0]).len() > 0
    &&& forall|y: int| 0 <= y < lines.len() ==> (#[trigger] line_bytes(lines[y])).len() == line_bytes(lines[0]).len()
    &&& forall|y: int, x: int|
        0 <= y < lines.len() && 0 <= x < line_bytes(lines[y]).len() ==> 48 <= #[trigger] line_bytes(lines[y])[x] <= 57
}

/// `g` holds the digits of `lines` as heights.
pub open spec fn forest_of(lines: Seq<String>, g: Seq<Seq<u8>>) -> bool {
    &&& g.len() == lines.len()
    &&& forall|y: int| 0 <= y < g.len() ==> (#[trigger] g[y]).len() == line_bytes(lines[y]).len()
    &&& forall|y: int, x: int|
        0 <= y < g.len() && 0 <= x < g[y].len() ==> #[trigger] g[y][x] == line_bytes(lines[y])[x] - 48
}

/// One row of heights per line, or `Err` where the lines are not a forest.
pub fn parse_input(raw_input: &[String]) -> (r: Result<Vec<Vec<u8>>, ()>)
    ensures
        match r {
            Ok(g) => forest_valid(raw_input@) && forest_of(raw_input@, view_grid(g@)),
            Err(_) => !forest_valid(raw_input@),
        },
{
    if raw_input.len() == 0 {
        return Err(());
    }
    let cols = raw_input[0].as_str().as_bytes().len();
    if cols == 0 {
        return Err(());
    }
    let mut g: Vec<Vec<u8>> = Vec::new();
    let mut y: usize = 0;
    while y < raw_input.len()
        invariant
            y <= raw_input@.len(),
            raw_input@.len() > 0,
            cols == line_bytes(raw_input@[0]).len(),
            cols > 0,
            g@.len() == y,
            forall|j: int| 0 <= j < y ==> (#[trigger] line_bytes(raw_input@[j])).len() == cols,
            forall|j: int, x: int|
                0 <= j < y && 0 <= x < cols ==> 48 <= #[trigger] line_bytes(raw_input@[j])[x] <= 57,
            forall|j: int| 0 <= j < y ==> (#[trigger] g@[j])@.len() == cols,
            forall|j: int, x: int| 0 <= j < y && 0 <= x < cols ==> #[trigger] g@[j]@[x] == line_bytes(raw_input@[j])[x] - 48,
        decreases raw_input@.len() - y,
    {
        let bytes = raw_input[y].as_str().as_bytes();
        assert(bytes@ == line_bytes(raw_input@[y as int]));
        if bytes.len() != cols {
            return Err(());
        }
        let mut row: Vec<u8> = Vec::new();
        let mut x: usize = 0;
        while x < cols
            invariant
                x <= cols,
                y < raw_input@.len(),
                bytes@ == line_bytes(raw_input@[y as int]),
                bytes@.len() == cols,
                row@.len() == x,
                forall|k: int| 0 <= k < x ==> 48 <= #[trigger] bytes@[k] <= 57,
                forall|k: int| 0 <= k < x ==> #[trigger] row@[k] == bytes@[k] - 48,
            decreases cols - x,
        {
            let b = bytes[x];
            if b < 48 || b > 57 {
                assert(!(48 <= line_bytes(raw_input@[y as int])[x as int] <= 57));
                return Err(());
            }
            row.push(b - 48);
            x += 1;
        }
        g.push(row);
        y += 1;
    }
    proof {
        assert forall|j: int, x: int|
            0 <= j < raw_input@.len() && 0 <= x < line_bytes(raw_input@[j]).len() implies 48
            <= #[trigger] line_bytes(raw_input@[j])[x] <= 57 by {
            assert(line_bytes(raw_input@[j]).len() == cols);
        }
        let v = view_grid(g@);
        assert forall|j: int| 0 <= j < v.len() implies (#[trigger] v[j]).len() == line_bytes(raw_input@[j]).len() by {
            assert(v[j] == g@[j]@);
        }
        assert forall|j: int, x: int| 0 <= j < v.len() && 0 <= x < v[j].len() implies #[trigger] v[j][x]
            == line_bytes(raw_input@[j])[x] - 48 by {
            assert(v[j] == g@[j]@);
        }
    }
    Ok(g)
}

/// Trees that can be seen from outside the grid.
pub fn part1(input: &Vec<Vec<u8>>, cols: usize) -> (r: usize)
    requires
        grid_wf(view_grid(input@), cols as int),
        input@.len() * cols <= usize::MAX,
    ensures
        r == visible_count(view_grid(input@), input@.len() as int),
{
    count_visible(input, cols)
}

/// The best scenic score.
pub fn part2(input: &Vec<Vec<u8>>, cols: usize) -> (r: u128)
    requires
        grid_wf(view_grid(input@), cols as int),
        input@.len() * cols <= usize::MAX,
    ensures
        forall|x: int, y: int|
            0 < x < cols - 1 && 0 < y < input@.len() - 1 ==> #[trigger] scenic(view_grid(input@), x, y) <= r,
        r == 0 || exists|x: int, y: int|
            0 < x < cols - 1 && 0 < y < input@.len() - 1 && r == #[trigger] scenic(view_grid(input@), x, y),
{
    get_max_scenic_score(input, cols)
}

/// The heights that the digits of `lines` give.
pub open spec fn heights(lines: Seq<String>) -> Seq<Seq<u8>> {
    Seq::new(
        lines.len(),
        |y: int| Seq::new(line_bytes(lines[y]).len(), |x: int| (line_bytes(lines[y])[x] - 48) as u8),
    )
}

/// The visible trees and the best scenic score; `Err` where the lines are not
/// a forest, or it has more trees than a `usize` counts.
pub fn solve(raw_input: &[String]) -> (r: Result<(usize, u128), ()>)
    ensures
        match r {
            Ok((a, b)) => {
                let g = heights(raw_input@);
                &&& forest_valid(raw_input@)
                &&& a == visible_count(g, g.len() as int)
                &&& forall|x: int, y: int|
                    0 < x < g[0].len() - 1 && 0 < y < g.len() - 1 ==> #[trigger] scenic(g, x, y) <= b
                &&& b == 0 || exists|x: int, y: int|
                    0 < x < g[0].len() - 1 && 0 < y < g.len() - 1 && b == #[trigger] scenic(g, x, y)
            },
            Err(_) => !forest_valid(raw_input@) || raw_input@.len() * line_bytes(raw_input@[0]).len() > usize::MAX,
        },
{
    let input = parse_input(raw_input)?;
    let cols = input[0].len();
    let rows = input.len();
    assert(rows as u128 * cols as u128 <= 0xffff_ffff_ffff_ffff * 0xffff_ffff_ffff_ffff) by (nonlinear_arith)
        requires
            rows <= 0xffff_ffff_ffff_ffff,
            cols <= 0xffff_ffff_ffff_ffff,
    ;
    if rows as u128 * cols as u128 > usize::MAX as u128 {
        proof {
            assert(view_grid(input@)[0] == input@[0]@);
            assert(raw_input@.len() * line_bytes(raw_input@[0]).len() == rows as int * cols as int);
        }
        return Err(());
    }
    let ghost v = view_grid(input@);
    proof {
        assert(v[0] == input@[0]@);
        assert forall|y: int| 0 <= y < v.len() implies (#[trigger] v[y]).len() == cols by {
            assert(v[y].len() == line_bytes(raw_input@[y]).len());
        }
        let hs = heights(raw_input@);
        assert forall|y: int| 0 <= y < v.len() implies #[trigger] v[y] =~= hs[y] by {
            assert(v[y].len() == line_bytes(raw_input@[y]).len());
        }
        assert(v =~= hs);
    }
    let a = part1(&input, cols);
    let b = part2(&input, cols);
    proof {
        let g = heights(raw_input@);
        assert(g[0].len() == cols && g.len() == rows);
        if b != 0 {
            let (x, y) = choose|x: int, y: int|
                0 < x < cols - 1 && 0 < y < rows - 1 && b == #[trigger] scenic(v, x, y);
            assert(0 < x < g[0].len() - 1 && 0 < y < g.len() - 1 && b == scenic(g, x, y));
        }
    }
    Ok((a, b))
}

} // verus!
