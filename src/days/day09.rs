use vstd::prelude::*;
use crate::text::{line_bytes, parse_signed, signed_of};

verus! {

/// A move of the head, or one diagonal step of a following knot.
#[derive(Clone, Copy, Debug, PartialEq, Eq, Structural)]
pub enum Direction {
    Up(i32),
    Down(i32),
    Left(i32),
    Right(i32),
    Diag(i32, i32),
}

/// A knot's position.
#[derive(Clone, Copy, Debug, PartialEq, Eq, Structural)]
pub struct Point {
    pub x: i32,
    pub y: i32,
}

pub open spec fn pt(p: Point) -> (int, int) {
    (p.x as int, p.y as int)
}

pub open spec fn pts(v: Seq<Point>) -> Seq<(int, int)> {
    v.map_values(|p: Point| pt(p))
}

pub open spec fn shifted(p: (int, int), d: (int, int)) -> (int, int) {
    (p.0 + d.0, p.1 + d.1)
}

pub open spec fn abs(v: int) -> int {
    if v < 0 {
        -v
    } else {
        v
    }
}

pub open spec fn sign(v: int) -> int {
    if v > 0 {
        1
    } else if v < 0 {
        -1
    } else {
        0
    }
}

/// Where knot `t` goes after knot `h` moved: nowhere while the two touch
/// (diagonals included), else one step towards `h` on each axis where they
/// differ.
pub open spec fn follow(h: (int, int), t: (int, int)) -> (int, int) {
    if abs(h.0 - t.0) <= 1 && abs(h.1 - t.1) <= 1 {
        t
    } else {
        (t.0 + sign(h.0 - t.0), t.1 + sign(h.1 - t.1))
    }
}

impl Direction {
    /// The step that one unit of this move makes.
    pub open spec fn delta(self) -> (int, int) {
        match self {
            Direction::Up(_) => (0, 1),
            Direction::Down(_) => (0, -1),
            Direction::Left(_) => (-1, 0),
            Direction::Right(_) => (1, 0),
            Direction::Diag(x, y) => (x as int, y as int),
        }
    }

    pub open spec fn spec_val(self) -> int {
        match self {
            Direction::Up(v) => v as int,
            Direction::Down(v) => v as int,
            Direction::Left(v) => v as int,
            Direction::Right(v) => v as int,
            Direction::Diag(_, _) => 0,
        }
    }

    /// How many unit steps the move makes.
    pub fn val(&self) -> (r: i32)
        ensures
            r == self.spec_val(),
    {
        match self {
            Direction::Up(v) => *v,
            Direction::Down(v) => *v,
            Direction::Left(v) => *v,
            Direction::Right(v) => *v,
            Direction::Diag(_, _) => 0,
        }
    }

    /// Reads `U n`, `D n`, `L n` or `R n`.
    pub fn from_bytes(s: &[u8]) -> (r: Result<Direction, ()>)
        ensures
            r == (match direction_of(s@) {
                Some(d) => Ok::<Direction, ()>(d),
                None => Err(()),
            }),
    {
        let n = s.len();
        if n < 2 || s[1] != 32 {
            return Err(());
        }
        match parse_signed(&s[2..n]) {
            None => Err(()),
            Some(v) => {
                if s[0] == 85 {
                    Ok(Direction::Up(v))
                } else if s[0] == 68 {
                    Ok(Direction::Down(v))
                } else if s[0] == 76 {
                    Ok(Direction::Left(v))
                } else if s[0] == 82 {
                    Ok(Direction::Right(v))
                } else {
                    Err(())
                }
            },
        }
    }
}

/// The move that a line `X n` spells, `X` one of `U`, `D`, `L`, `R`.
pub open spec fn direction_of(s: Seq<u8>) -> Option<Direction> {
    if s.len() < 2 || s[1] != 32 {
        None
    } else {
        match signed_of(s.subrange(2, s.len() as int)) {
            None => None,
            Some(v) => if s[0] == 85 {
                Some(Direction::Up(v))
            } else if s[0] == 68 {
                Some(Direction::Down(v))
            } else if s[0] == 76 {
                Some(Direction::Left(v))
            } else if s[0] == 82 {
                Some(Direction::Right(v))
            } else {
                None
            },
        }
    }
}

impl Point {
    pub fn new(x: i32, y: i32) -> (r: Point)
        ensures
            r.x == x && r.y == y,
    {
        Point { x, y }
    }

    /// The two share a row or a column.
    pub fn is_in_line(&self, other: &Point) -> (r: bool)
        ensures
            r == (self.x == other.x || self.y == other.y),
    {
        self.x == other.x || self.y == other.y
    }

    /// Takes one step of `dir`.
    pub fn make_move(&mut self, dir: &Direction)
        requires
            i32::MIN <= shifted(pt(*old(self)), dir.delta()).0 <= i32::MAX,
            i32::MIN <= shifted(pt(*old(self)), dir.delta()).1 <= i32::MAX,
        ensures
            pt(*final(self)) == shifted(pt(*old(self)), dir.delta()),
    {
        match dir {
            Direction::Up(_) => self.y = self.y + 1,
            Direction::Down(_) => self.y = self.y - 1,
            Direction::Left(_) => self.x = self.x - 1,
            Direction::Right(_) => self.x = self.x + 1,
            Direction::Diag(x, y) => {
                self.x = self.x + *x;
                self.y = self.y + *y;
            },
        }
    }

    /// The two do not touch, diagonals included.
    pub fn is_too_far(&self, other: &Point) -> (r: bool)
        ensures
            r == !(abs(other.x - self.x) <= 1 && abs(other.y - self.y) <= 1),
    {
        let dx = other.x as i64 - self.x as i64;
        let dy = other.y as i64 - self.y as i64;
        if self.is_in_line(other) {
            let d = dx + dy;
            d > 1 || d < -1
        } else {
            let ax = if dx < 0 { -dx } else { dx };
            let ay = if dy < 0 { -dy } else { dy };
            ax + ay > 2
        }
    }

    /// The step that brings `tail` after `head`, if it has to move.
    pub fn get_tail_move(head: &Point, tail: &Point) -> (r: Option<Direction>)
        ensures
            r is None <==> (abs(head.x - tail.x) <= 1 && abs(head.y - tail.y) <= 1),
            match r {
                None => follow(pt(*head), pt(*tail)) == pt(*tail),
                Some(d) => shifted(pt(*tail), d.delta()) == follow(pt(*head), pt(*tail)) && -1 <= d.delta().0
                    <= 1 && -1 <= d.delta().1 <= 1,
            },
    {
        if head == tail || !head.is_too_far(tail) {
            return None;
        }
        if head.is_in_line(tail) {
            if head.x > tail.x {
                return Some(Direction::Right(1));
            } else if head.x < tail.x {
                return Some(Direction::Left(1));
            } else if head.y > tail.y {
                return Some(Direction::Up(1));
            } else {
                return Some(Direction::Down(1));
            }
        }
        let diag_x: i32 = if head.x > tail.x { 1 } else { -1 };
        let diag_y: i32 = if head.y > tail.y { 1 } else { -1 };
        Some(Direction::Diag(diag_x, diag_y))
    }
}

/// Knots `k` and on, each pulled after the one before it.
pub open spec fn pull_from(knots: Seq<(int, int)>, k: int) -> Seq<(int, int)>
    decreases knots.len() - k,
{
    if k <= 0 || k >= knots.len() {
        knots
    } else {
        pull_from(knots.update(k, follow(knots[k - 1], knots[k])), k + 1)
    }
}

/// The rope after its head takes step `d`.
pub open spec fn step_rope(knots: Seq<(int, int)>, d: (int, int)) -> Seq<(int, int)> {
    pull_from(knots.update(0, shifted(knots[0], d)), 1)
}

/// The unit steps of the head: each move repeats its step `val` times.
pub open spec fn unit_steps(moves: Seq<Direction>) -> Seq<(int, int)>
    decreases moves.len(),
{
    if moves.len() == 0 {
        seq![]
    } else {
        let m = moves.last();
        let n = if m.spec_val() > 0 { m.spec_val() } else { 0 };
        unit_steps(moves.drop_last()) + Seq::new(n as nat, |i: int| m.delta())
    }
}

/// A rope of `n` knots, all at the origin, after the head's `steps`.
pub open spec fn rope_after(n: nat, steps: Seq<(int, int)>) -> Seq<(int, int)>
    decreases steps.len(),
{
    if steps.len() == 0 {
        Seq::new(n, |i: int| (0int, 0int))
    } else {
        step_rope(rope_after(n, steps.drop_last()), steps.last())
    }
}

/// Every position the last knot takes.
pub open spec fn tail_visits(n: nat, steps: Seq<(int, int)>) -> Set<(int, int)>
    decreases steps.len(),
{
    if steps.len() == 0 {
        set![(0int, 0int)]
    } else {
        tail_visits(n, steps.drop_last()).insert(rope_after(n, steps).last())
    }
}

pub open spec fn within(p: (int, int), b: int) -> bool {
    abs(p.0) <= b && abs(p.1) <= b
}

pub open spec fn rope_within(knots: Seq<(int, int)>, b: int) -> bool {
    forall|k: int| 0 <= k < knots.len() ==> within(#[trigger] knots[k], b)
}

/// Whether `list` holds `p`.
fn holds_point(list: &Vec<Point>, p: Point) -> (r: bool)
    ensures
        r == pts(list@).contains(pt(p)),
{
    let mut i: usize = 0;
    while i < list.len()
        invariant
            i <= list@.len(),
            forall|j: int| 0 <= j < i ==> pt(#[trigger] list@[j]) != pt(p),
        decreases list.len() - i,
    {
        if list[i].x == p.x && list[i].y == p.y {
            assert(pts(list@)[i as int] == pt(p));
            return true;
        }
        i += 1;
    }
    proof {
        if pts(list@).contains(pt(p)) {
            let j = choose|j: int| 0 <= j < pts(list@).len() && pts(list@)[j] == pt(p);
            assert(pt(list@[j]) == pt(p));
        }
    }
    false
}

/// Pulls knots `1..` after the head, in order.
fn pull_knots(knots: &mut Vec<Point>, Ghost(b): Ghost<int>)
    requires
        old(knots)@.len() >= 1,
        rope_within(pts(old(knots)@), b),
        0 <= b < i32::MAX,
    ensures
        final(knots)@.len() == old(knots)@.len(),
        pts(final(knots)@) == pull_from(pts(old(knots)@), 1),
        rope_within(pts(final(knots)@), b),
{
    let ghost start = pts(knots@);
    let mut k: usize = 1;
    while k < knots.len()
        invariant
            1 <= k <= knots@.len(),
            knots@.len() == old(knots)@.len(),
            pull_from(pts(knots@), k as int) == pull_from(start, 1),
            rope_within(pts(knots@), b),
            0 <= b < i32::MAX,
        decreases knots.len() - k,
    {
        let h = knots[k - 1];
        let t = knots[k];
        let ghost cur = pts(knots@);
        assert(cur[k - 1] == pt(h) && cur[k as int] == pt(t));
        assert(within(cur[k - 1], b) && within(cur[k as int], b));
        match Point::get_tail_move(&h, &t) {
            Some(d) => {
                let mut nt = t;
                nt.make_move(&d);
                knots.set(k, nt);
                assert(pts(knots@) =~= cur.update(k as int, follow(cur[k - 1], cur[k as int])));
            },
            None => {
                assert(cur =~= cur.update(k as int, follow(cur[k - 1], cur[k as int])));
            },
        }
        k += 1;
    }
    assert(pull_from(pts(knots@), k as int) == pts(knots@));
}

proof fn lemma_unit_steps_prefix(moves: Seq<Direction>, i: int)
    requires
        0 <= i < moves.len(),
    ensures
        unit_steps(moves.subrange(0, i + 1)) == unit_steps(moves.subrange(0, i)) + Seq::new(
            (if moves[i].spec_val() > 0 { moves[i].spec_val() } else { 0 }) as nat,
            |k: int| moves[i].delta(),
        ),
{
    assert(moves.subrange(0, i + 1).drop_last() == moves.subrange(0, i));
}

/// How many positions the last of `n` knots visits while the head makes
/// `moves`.
pub fn simulate(moves: &Vec<Direction>, n: usize) -> (r: usize)
    requires
        n >= 1,
        unit_steps(moves@).len() < i32::MAX,
    ensures
        r == tail_visits(n as nat, unit_steps(moves@)).len(),
{
    let mut knots: Vec<Point> = Vec::new();
    let mut k: usize = 0;
    while k < n
        invariant
            k <= n,
            knots@.len() == k,
            forall|j: int| 0 <= j < k ==> #[trigger] knots@[j] == (Point { x: 0, y: 0 }),
        decreases n - k,
    {
        knots.push(Point::new(0, 0));
        k += 1;
    }
    let mut visits: Vec<Point> = Vec::new();
    visits.push(Point::new(0, 0));
    let ghost mut done: Seq<(int, int)> = seq![];
    proof {
        assert(pts(knots@) =~= rope_after(n as nat, done));
        assert forall|a: (int, int)| pts(visits@).contains(a) <==> a == (0int, 0int) by {
            if a == (0int, 0int) {
                assert(pts(visits@)[0] == a);
            }
        }
        assert(pts(visits@).to_set() =~= tail_visits(n as nat, done));
    }
    let mut i: usize = 0;
    while i < moves.len()
        invariant
            n >= 1,
            i <= moves@.len(),
            unit_steps(moves@).len() < i32::MAX,
            done == unit_steps(moves@.subrange(0, i as int)),
            done.len() <= unit_steps(moves@).len(),
            knots@.len() == n,
            pts(knots@) == rope_after(n as nat, done),
            rope_within(pts(knots@), done.len() as int),
            pts(visits@).no_duplicates(),
            pts(visits@).to_set() == tail_visits(n as nat, done),
        decreases moves.len() - i,
    {
        let m = moves[i];
        let dist = m.val();
        proof {
            lemma_unit_steps_prefix(moves@, i as int);
            lemma_unit_steps_grow(moves@, i as int + 1);
        }
        let ghost base = done;
        let mut j: i32 = 0;
        while j < dist
            invariant
                n >= 1,
                0 <= j,
                j <= dist || dist <= 0,
                dist <= 0 ==> j == 0,
                dist == m.spec_val(),
                m == moves@[i as int],
                i < moves@.len(),
                done == base + Seq::new(j as nat, |k: int| m.delta()),
                base.len() + (if dist > 0 { dist as int } else { 0 }) <= unit_steps(moves@).len(),
                unit_steps(moves@).len() < i32::MAX,
                knots@.len() == n,
                pts(knots@) == rope_after(n as nat, done),
                rope_within(pts(knots@), done.len() as int),
                pts(visits@).no_duplicates(),
                pts(visits@).to_set() == tail_visits(n as nat, done),
            decreases dist - j,
        {
            let ghost before = pts(knots@);
            let ghost b = done.len() as int;
            let mut head = knots[0];
            assert(pt(head) == before[0]);
            assert(within(before[0], b));
            head.make_move(&m);
            knots.set(0, head);
            assert(pts(knots@) =~= before.update(0, shifted(before[0], m.delta())));
            assert(rope_within(pts(knots@), b + 1)) by {
                assert forall|q: int| 0 <= q < n implies within(#[trigger] pts(knots@)[q], b + 1) by {
                    if q > 0 {
                        assert(pts(knots@)[q] == before[q]);
                    }
                }
            }
            pull_knots(&mut knots, Ghost(b + 1));
            proof {
                let nd = done.push(m.delta());
                assert(nd.drop_last() == done);
                assert(nd == base + Seq::new((j + 1) as nat, |k: int| m.delta()));
                done = nd;
            }
            let tail = knots[n - 1];
            assert(pt(tail) == rope_after(n as nat, done).last());
            if !holds_point(&visits, tail) {
                let ghost old_v = pts(visits@);
                visits.push(tail);
                proof {
                    assert(pts(visits@) =~= old_v.push(pt(tail)));
                    assert forall|a: (int, int)| pts(visits@).contains(a) <==> (old_v.contains(a) || a
                        == pt(tail)) by {
                        if old_v.contains(a) {
                            let w = choose|w: int| 0 <= w < old_v.len() && old_v[w] == a;
                            assert(pts(visits@)[w] == a);
                        }
                        if a == pt(tail) {
                            assert(pts(visits@)[old_v.len() as int] == a);
                        }
                        if pts(visits@).contains(a) {
                            let w = choose|w: int| 0 <= w < pts(visits@).len() && pts(visits@)[w] == a;
                            if w < old_v.len() {
                                assert(old_v[w] == a);
                            }
                        }
                    }
                    assert(pts(visits@).to_set() =~= old_v.to_set().insert(pt(tail)));
                    assert forall|a: int, c: int|
                        0 <= a < pts(visits@).len() && 0 <= c < pts(visits@).len() && a != c implies pts(
                        visits@,
                    )[a] != pts(visits@)[c] by {
                        if a == old_v.len() as int {
                            assert(pts(visits@)[c] == old_v[c]);
                            assert(old_v[c] != pt(tail));
                        } else if c == old_v.len() as int {
                            assert(pts(visits@)[a] == old_v[a]);
                            assert(old_v[a] != pt(tail));
                        } else {
                            assert(pts(visits@)[a] == old_v[a] && pts(visits@)[c] == old_v[c]);
                        }
                    }
                }
            } else {
                proof {
                    assert(pts(visits@).to_set() =~= pts(visits@).to_set().insert(pt(tail)));
                }
            }
            j += 1;
        }
        proof {
            if dist <= 0 {
                assert(done =~= base + Seq::new(0 as nat, |k: int| m.delta()));
            }
        }
        i += 1;
    }
    proof {
        assert(moves@.subrange(0, moves@.len() as int) == moves@);
        pts(visits@).unique_seq_to_set();
    }
    visits.len()
}

proof fn lemma_unit_steps_grow(moves: Seq<Direction>, i: int)
    requires
        0 <= i <= moves.len(),
    ensures
        unit_steps(moves.subrange(0, i)).len() <= unit_steps(moves).len(),
    decreases moves.len() - i,
{
    if i < moves.len() {
        lemma_unit_steps_prefix(moves, i);
        lemma_unit_steps_grow(moves, i + 1);
    } else {
        assert(moves.subrange(0, i) == moves);
    }
}

/// How many unit steps the head makes.
pub fn count_steps(moves: &Vec<Direction>) -> (r: u128)
    ensures
        r == unit_steps(moves@).len(),
{
    let mut total: u128 = 0;
    let mut i: usize = 0;
    while i < moves.len()
        invariant
            i <= moves@.len(),
            total == unit_steps(moves@.subrange(0, i as int)).len(),
            total <= i * 0x8000_0000,
        decreases moves.len() - i,
    {
        proof {
            lemma_unit_steps_prefix(moves@, i as int);
        }
        let v = moves[i].val();
        if v > 0 {
            total = total + v as u128;
        }
        i += 1;
    }
    assert(moves@.subrange(0, moves@.len() as int) == moves@);
    total
}

/// Positions visited by the tail of a two-knot rope.
pub fn part1(input: &Vec<Direction>) -> (r: usize)
    requires
        unit_steps(input@).len() < i32::MAX,
    ensures
        r == tail_visits(2, unit_steps(input@)).len(),
{
    simulate(input, 2)
}

/// Positions visited by the tail of a ten-knot rope.
pub fn part2(input: &Vec<Direction>) -> (r: usize)
    requires
        unit_steps(input@).len() < i32::MAX,
    ensures
        r == tail_visits(10, unit_steps(input@)).len(),
{
    simulate(input, 10)
}

/// The moves of all lines, if every line is one.
pub open spec fn directions_of(lines: Seq<String>) -> Option<Seq<Direction>>
    decreases lines.len(),
{
    if lines.len() == 0 {
        Some(seq![])
    } else {
        match (directions_of(lines.drop_last()), direction_of(line_bytes(lines.last()))) {
            (Some(prev), Some(d)) => Some(prev.push(d)),
            _ => None,
        }
    }
}

proof fn lemma_directions_fail_extends(lines: Seq<String>, n: int)
    requires
        0 <= n <= lines.len(),
        directions_of(lines.subrange(0, n)) is None,
    ensures
        directions_of(lines) is None,
    decreases lines.len() - n,
{
    if n < lines.len() {
        assert(lines.subrange(0, n + 1).drop_last() == lines.subrange(0, n));
        lemma_directions_fail_extends(lines, n + 1);
    } else {
        assert(lines.subrange(0, n) == lines);
    }
}

pub fn parse_input(raw_input: &[String]) -> (r: Result<Vec<Direction>, ()>)
    ensures
        match directions_of(raw_input@) {
            Some(d) => r is Ok && r->Ok_0@ == d,
            None => r is Err,
        },
{
    let mut res: Vec<Direction> = Vec::new();
    let mut i: usize = 0;
    while i < raw_input.len()
        invariant
            i <= raw_input@.len(),
            directions_of(raw_input@.subrange(0, i as int)) == Some(res@),
        decreases raw_input.len() - i,
    {
        let bytes = raw_input[i].as_str().as_bytes();
        let ghost prefix = raw_input@.subrange(0, i as int + 1);
        assert(prefix.drop_last() == raw_input@.subrange(0, i as int));
        assert(bytes@ == line_bytes(prefix.last()));
        match Direction::from_bytes(bytes) {
            Ok(d) => res.push(d),
            Err(_) => {
                proof {
                    lemma_directions_fail_extends(raw_input@, i as int + 1);
                }
                return Err(());
            },
        }
        i += 1;
    }
    assert(raw_input@.subrange(0, raw_input@.len() as int) == raw_input@);
    Ok(res)
}

/// Tail positions of the two-knot and the ten-knot rope; `Err` where a line
/// is not a move, or the head would make `i32::MAX` steps or more.
pub fn solve(raw_input: &[String]) -> (r: Result<(usize, usize), ()>)
    ensures
        match directions_of(raw_input@) {
            Some(d) => if unit_steps(d).len() < i32::MAX {
                r == Ok::<(usize, usize), ()>(
                    (tail_visits(2, unit_steps(d)).len() as usize, tail_visits(10, unit_steps(d)).len() as usize),
                )
            } else {
                r is Err
            },
            None => r is Err,
        },
{
    let input = parse_input(raw_input)?;
    if count_steps(&input) >= i32::MAX as u128 {
        return Err(());
    }
    Ok((part1(&input), part2(&input)))
}

} // verus!
