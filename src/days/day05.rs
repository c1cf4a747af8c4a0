use vstd::prelude::*;
use crate::text::{
    decimal_of, find_byte, first_index, is_digit, line_bytes, parse_decimal, DIGIT_NINE, DIGIT_ZERO,
};

verus! {

/// Move `num` crates from stack `from` to stack `to`, both counted from one.
#[derive(Clone, Copy, Debug, PartialEq, Eq, Structural)]
pub struct Move {
    pub num: u8,
    pub from: usize,
    pub to: usize,
}

/// The stacks, bottom crate first, and the moves to perform.
pub struct StackData {
    pub stacks: Vec<Vec<u8>>,
    pub moves: Vec<Move>,
}

pub open spec fn view_stacks(st: Seq<Vec<u8>>) -> Seq<Seq<u8>> {
    st.map_values(|v: Vec<u8>| v@)
}

/// The top crate of stack `from` goes onto stack `to`; nothing happens where
/// `from` is empty.
pub open spec fn move_one(st: Seq<Seq<u8>>, from: int, to: int) -> Seq<Seq<u8>> {
    if st[from].len() == 0 {
        st
    } else {
        let c = st[from].last();
        let st1 = st.update(from, st[from].drop_last());
        st1.update(to, st1[to].push(c))
    }
}

/// `n` single-crate moves.
pub open spec fn move_n(st: Seq<Seq<u8>>, from: int, to: int, n: nat) -> Seq<Seq<u8>>
    decreases n,
{
    if n == 0 {
        st
    } else {
        move_one(move_n(st, from, to, (n - 1) as nat), from, to)
    }
}

/// The top `n` crates of `from` go onto `to` as one block, keeping their
/// order; no result where `from` holds fewer than `n`.
pub open spec fn move_block(st: Seq<Seq<u8>>, from: int, to: int, n: int) -> Option<Seq<Seq<u8>>> {
    if n > st[from].len() {
        None
    } else {
        let k = st[from].len() - n;
        let block = st[from].subrange(k, st[from].len() as int);
        let st1 = st.update(from, st[from].subrange(0, k));
        Some(st1.update(to, st1[to] + block))
    }
}

/// Every move names stacks that exist.
pub open spec fn moves_valid(moves: Seq<Move>, count: int) -> bool {
    forall|i: int|
        0 <= i < moves.len() ==> 1 <= (#[trigger] moves[i]).from <= count && 1 <= moves[i].to <= count
}

/// The stacks after the moves, one crate at a time.
pub open spec fn run_single(st: Seq<Seq<u8>>, moves: Seq<Move>) -> Seq<Seq<u8>>
    decreases moves.len(),
{
    if moves.len() == 0 {
        st
    } else {
        let m = moves.last();
        move_n(run_single(st, moves.drop_last()), m.from - 1, m.to - 1, m.num as nat)
    }
}

/// The stacks after the moves, each moving its crates as one block.
pub open spec fn run_batched(st: Seq<Seq<u8>>, moves: Seq<Move>) -> Option<Seq<Seq<u8>>>
    decreases moves.len(),
{
    if moves.len() == 0 {
        Some(st)
    } else {
        let m = moves.last();
        match run_batched(st, moves.drop_last()) {
            Some(prev) => move_block(prev, m.from - 1, m.to - 1, m.num as int),
            None => None,
        }
    }
}

/// The top crate of each non-empty stack, in stack order.
pub open spec fn tops(st: Seq<Seq<u8>>) -> Seq<u8>
    decreases st.len(),
{
    if st.len() == 0 {
        seq![]
    } else if st.last().len() == 0 {
        tops(st.drop_last())
    } else {
        tops(st.drop_last()).push(st.last().last())
    }
}

/// Moves the top crate of stack `from` onto stack `to`.
fn move_crate(stacks: &mut Vec<Vec<u8>>, from: usize, to: usize)
    requires
        from < old(stacks)@.len(),
        to < old(stacks)@.len(),
    ensures
        final(stacks)@.len() == old(stacks)@.len(),
        view_stacks(final(stacks)@) == move_one(view_stacks(old(stacks)@), from as int, to as int),
{
    let ghost before = view_stacks(stacks@);
    let mut src: Vec<u8> = Vec::new();
    stacks.set_and_swap(from, &mut src);
    match src.pop() {
        Some(c) => {
            stacks.set_and_swap(from, &mut src);
            let mut dst: Vec<u8> = Vec::new();
            stacks.set_and_swap(to, &mut dst);
            dst.push(c);
            stacks.set_and_swap(to, &mut dst);
            let ghost st1 = before.update(from as int, before[from as int].drop_last());
            assert(view_stacks(stacks@) == st1.update(to as int, st1[to as int].push(c)));
        },
        None => {
            stacks.set_and_swap(from, &mut src);
            assert(view_stacks(stacks@) == before);
        },
    }
}

/// Moves the top `num` crates of `from` onto `to` as one block; `false`, with
/// nothing moved, where `from` holds fewer.
fn move_crates_batched(stacks: &mut Vec<Vec<u8>>, num: usize, from: usize, to: usize) -> (ok: bool)
    requires
        from < old(stacks)@.len(),
        to < old(stacks)@.len(),
    ensures
        final(stacks)@.len() == old(stacks)@.len(),
        match move_block(view_stacks(old(stacks)@), from as int, to as int, num as int) {
            Some(st) => ok && view_stacks(final(stacks)@) == st,
            None => !ok && final(stacks)@ == old(stacks)@,
        },
{
    let ghost before = view_stacks(stacks@);
    let ghost orig = stacks@;
    let mut src: Vec<u8> = Vec::new();
    stacks.set_and_swap(from, &mut src);
    if num > src.len() {
        stacks.set_and_swap(from, &mut src);
        assert(stacks@ == orig);
        return false;
    }
    let k = src.len() - num;
    let mut block = src.split_off(k);
    stacks.set_and_swap(from, &mut src);
    let mut dst: Vec<u8> = Vec::new();
    stacks.set_and_swap(to, &mut dst);
    dst.append(&mut block);
    stacks.set_and_swap(to, &mut dst);
    proof {
        let st1 = before.update(from as int, before[from as int].subrange(0, k as int));
        let blk = before[from as int].subrange(k as int, before[from as int].len() as int);
        assert(view_stacks(stacks@) == st1.update(to as int, st1[to as int] + blk));
    }
    true
}

impl StackData {
    /// Performs every move one crate at a time.
    pub fn perform_moves(&mut self)
        requires
            moves_valid(old(self).moves@, old(self).stacks@.len() as int),
        ensures
            final(self).moves@ == old(self).moves@,
            view_stacks(final(self).stacks@) == run_single(view_stacks(old(self).stacks@), old(self).moves@),
    {
        let ghost start = view_stacks(self.stacks@);
        let mut i: usize = 0;
        while i < self.moves.len()
            invariant
                i <= self.moves@.len(),
                self.moves@ == old(self).moves@,
                start == view_stacks(old(self).stacks@),
                self.stacks@.len() == old(self).stacks@.len(),
                moves_valid(self.moves@, self.stacks@.len() as int),
                view_stacks(self.stacks@) == run_single(start, self.moves@.subrange(0, i as int)),
            decreases self.moves.len() - i,
        {
            let m = self.moves[i];
            assert(1 <= self.moves@[i as int].from <= self.stacks@.len());
            let ghost base = view_stacks(self.stacks@);
            let mut k: u8 = 0;
            while k < m.num
                invariant
                    k <= m.num,
                    1 <= m.from <= self.stacks@.len(),
                    1 <= m.to <= self.stacks@.len(),
                    self.moves@ == old(self).moves@,
                    self.stacks@.len() == old(self).stacks@.len(),
                    view_stacks(self.stacks@) == move_n(base, m.from - 1, m.to - 1, k as nat),
                decreases m.num - k,
            {
                move_crate(&mut self.stacks, m.from - 1, m.to - 1);
                k += 1;
            }
            assert(self.moves@.subrange(0, i as int + 1).drop_last() == self.moves@.subrange(0, i as int));
            i += 1;
        }
        assert(self.moves@.subrange(0, self.moves@.len() as int) == self.moves@);
    }

    /// Performs every move as one block; `false` where a move asks for more
    /// crates than its stack holds, which stops the run there.
    pub fn perform_moves_batched(&mut self) -> (ok: bool)
        requires
            moves_valid(old(self).moves@, old(self).stacks@.len() as int),
        ensures
            final(self).moves@ == old(self).moves@,
            match run_batched(view_stacks(old(self).stacks@), old(self).moves@) {
                Some(st) => ok && view_stacks(final(self).stacks@) == st,
                None => !ok,
            },
    {
        let ghost start = view_stacks(self.stacks@);
        let mut i: usize = 0;
        while i < self.moves.len()
            invariant
                i <= self.moves@.len(),
                self.moves@ == old(self).moves@,
                start == view_stacks(old(self).stacks@),
                self.stacks@.len() == old(self).stacks@.len(),
                moves_valid(self.moves@, self.stacks@.len() as int),
                run_batched(start, self.moves@.subrange(0, i as int)) == Some(view_stacks(self.stacks@)),
            decreases self.moves.len() - i,
        {
            let m = self.moves[i];
            assert(1 <= self.moves@[i as int].from <= self.stacks@.len());
            assert(self.moves@.subrange(0, i as int + 1).drop_last() == self.moves@.subrange(0, i as int));
            if !move_crates_batched(&mut self.stacks, m.num as usize, m.from - 1, m.to - 1) {
                proof {
                    lemma_batched_fail_extends(start, self.moves@, i as int + 1);
                }
                return false;
            }
            i += 1;
        }
        assert(self.moves@.subrange(0, self.moves@.len() as int) == self.moves@);
        true
    }

    /// The top crate of each non-empty stack.
    pub fn get_top_values(&self) -> (r: Vec<u8>)
        ensures
            r@ == tops(view_stacks(self.stacks@)),
    {
        let mut r: Vec<u8> = Vec::new();
        let mut i: usize = 0;
        while i < self.stacks.len()
            invariant
                i <= self.stacks@.len(),
                r@ == tops(view_stacks(self.stacks@.subrange(0, i as int))),
            decreases self.stacks.len() - i,
        {
            let ghost pre = view_stacks(self.stacks@.subrange(0, i as int + 1));
            assert(pre.drop_last() == view_stacks(self.stacks@.subrange(0, i as int)));
            let s = &self.stacks[i];
            if s.len() > 0 {
                r.push(s[s.len() - 1]);
            }
            i += 1;
        }
        assert(self.stacks@.subrange(0, self.stacks@.len() as int) == self.stacks@);
        r
    }
}

proof fn lemma_batched_fail_extends(st: Seq<Seq<u8>>, moves: Seq<Move>, n: int)
    requires
        0 <= n <= moves.len(),
        run_batched(st, moves.subrange(0, n)) is None,
    ensures
        run_batched(st, moves) is None,
    decreases moves.len() - n,
{
    if n < moves.len() {
        assert(moves.subrange(0, n + 1).drop_last() == moves.subrange(0, n));
        lemma_batched_fail_extends(st, moves, n + 1);
    } else {
        assert(moves.subrange(0, n) == moves);
    }
}

pub open spec fn is_alpha(b: u8) -> bool {
    (65 <= b <= 90) || (97 <= b <= 122)
}

/// The crates of column `i`, bottom first, read upwards from row `k - 1` for
/// as long as the rows hold a letter there.
pub open spec fn column(rows: Seq<Seq<u8>>, i: int, k: int) -> Seq<u8>
    decreases k,
{
    if k <= 0 {
        seq![]
    } else if i < rows[k - 1].len() && is_alpha(rows[k - 1][i]) {
        seq![rows[k - 1][i]] + column(rows, i, k - 1)
    } else {
        seq![]
    }
}

/// One stack for each digit among the first `i` bytes of the label row, the
/// last row of `rows`.
pub open spec fn stacks_upto(rows: Seq<Seq<u8>>, i: int) -> Seq<Seq<u8>>
    decreases i,
{
    if i <= 0 {
        seq![]
    } else if is_digit(rows.last()[i - 1]) {
        stacks_upto(rows, i - 1).push(column(rows, i - 1, rows.len() - 1))
    } else {
        stacks_upto(rows, i - 1)
    }
}

/// The stacks that a drawing, ending in its label row, shows.
pub open spec fn stacks_of(rows: Seq<Seq<u8>>) -> Seq<Seq<u8>> {
    stacks_upto(rows, rows.last().len() as int)
}

/// The lines before the first empty one.
pub open spec fn header(lines: Seq<Seq<u8>>) -> Seq<Seq<u8>>
    decreases lines.len(),
{
    if lines.len() == 0 || lines[0].len() == 0 {
        seq![]
    } else {
        seq![lines[0]] + header(lines.drop_first())
    }
}

pub open spec fn all_line_bytes(lines: Seq<String>) -> Seq<Seq<u8>> {
    lines.map_values(|l: String| line_bytes(l))
}

pub open spec fn starts_with(s: Seq<u8>, p: Seq<u8>) -> bool {
    s.len() >= p.len() && s.subrange(0, p.len() as int) == p
}

pub open spec fn move_word() -> Seq<u8> {
    seq![109u8, 111u8, 118u8, 101u8, 32u8]
}

pub open spec fn from_word() -> Seq<u8> {
    seq![102u8, 114u8, 111u8, 109u8, 32u8]
}

pub open spec fn to_word() -> Seq<u8> {
    seq![116u8, 111u8, 32u8]
}

/// `s` split at its first space.
pub open spec fn split_space(s: Seq<u8>) -> Option<(Seq<u8>, Seq<u8>)> {
    match first_index(s, 32) {
        Some(k) => Some((s.subrange(0, k), s.subrange(k + 1, s.len() as int))),
        None => None,
    }
}

/// The move that `move N from A to B` spells.
pub open spec fn move_of(line: Seq<u8>) -> Option<Move> {
    if !starts_with(line, move_word()) {
        None
    } else {
        match split_space(line.subrange(5, line.len() as int)) {
            Some((n, r)) => if !starts_with(r, from_word()) {
                None
            } else {
                match split_space(r.subrange(5, r.len() as int)) {
                    Some((a, t)) => if !starts_with(t, to_word()) {
                        None
                    } else {
                        let b = t.subrange(3, t.len() as int);
                        match (decimal_of(n), decimal_of(a), decimal_of(b)) {
                            (Some(nv), Some(av), Some(bv)) => if nv <= 255 && av <= usize::MAX && bv
                                <= usize::MAX {
                                Some(Move { num: nv as u8, from: av as usize, to: bv as usize })
                            } else {
                                None
                            },
                            _ => None,
                        }
                    },
                    None => None,
                }
            },
            None => None,
        }
    }
}

/// The moves of all lines that start with `move `; no result where one of
/// them is not a move.
pub open spec fn moves_of(lines: Seq<Seq<u8>>) -> Option<Seq<Move>>
    decreases lines.len(),
{
    if lines.len() == 0 {
        Some(seq![])
    } else {
        match moves_of(lines.drop_last()) {
            None => None,
            Some(prev) => if !starts_with(lines.last(), move_word()) {
                Some(prev)
            } else {
                match move_of(lines.last()) {
                    Some(m) => Some(prev.push(m)),
                    None => None,
                }
            },
        }
    }
}

fn has_prefix(s: &[u8], p: &[u8]) -> (r: bool)
    ensures
        r == starts_with(s@, p@),
{
    if s.len() < p.len() {
        return false;
    }
    let mut i: usize = 0;
    while i < p.len()
        invariant
            i <= p@.len(),
            p@.len() <= s@.len(),
            forall|j: int| 0 <= j < i ==> s@[j] == p@[j],
        decreases p.len() - i,
    {
        if s[i] != p[i] {
            assert(s@.subrange(0, p@.len() as int)[i as int] != p@[i as int]);
            return false;
        }
        i += 1;
    }
    assert(s@.subrange(0, p@.len() as int) == p@);
    true
}

/// Splits `s` at its first space.
fn split_space_bytes(s: &[u8]) -> (r: Option<(&[u8], &[u8])>)
    ensures
        match (split_space(s@), r) {
            (Some((a, b)), Some((x, y))) => x@ == a && y@ == b,
            (None, None) => true,
            _ => false,
        },
{
    let n = s.len();
    match find_byte(s, 32) {
        Some(k) => Some((&s[0..k], &s[k + 1..n])),
        None => None,
    }
}

/// Drops the first `k` bytes of `s`, which starts with a word of `k` bytes.
fn skip_bytes(s: &[u8], k: usize) -> (r: &[u8])
    requires
        k <= s@.len(),
    ensures
        r@ == s@.subrange(k as int, s@.len() as int),
{
    &s[k..s.len()]
}

/// The three numbers of a move, once checked against their types.
fn move_from_numbers(n: &[u8], a: &[u8], b: &[u8]) -> (r: Option<Move>)
    ensures
        r == (match (decimal_of(n@), decimal_of(a@), decimal_of(b@)) {
            (Some(nv), Some(av), Some(bv)) => if nv <= 255 && av <= usize::MAX && bv <= usize::MAX {
                Some(Move { num: nv as u8, from: av as usize, to: bv as usize })
            } else {
                None
            },
            _ => None,
        }),
{
    match (parse_decimal(n), parse_decimal(a), parse_decimal(b)) {
        (Some(num), Some(from), Some(to)) => {
            if num > 255 || from > usize::MAX as u64 || to > usize::MAX as u64 {
                None
            } else {
                Some(Move { num: num as u8, from: from as usize, to: to as usize })
            }
        },
        _ => None,
    }
}

impl Move {
    /// Reads `move N from A to B`.
    pub fn from_bytes(s: &[u8]) -> (r: Option<Move>)
        ensures
            r == move_of(s@),
    {
        let mw = vec![109u8, 111u8, 118u8, 101u8, 32u8];
        let fw = vec![102u8, 114u8, 111u8, 109u8, 32u8];
        let tw = vec![116u8, 111u8, 32u8];
        assert(mw@ == move_word() && fw@ == from_word() && tw@ == to_word());
        if !has_prefix(s, mw.as_slice()) {
            return None;
        }
        let rest = skip_bytes(s, 5);
        match split_space_bytes(rest) {
            None => None,
            Some((nbytes, r)) => {
                if !has_prefix(r, fw.as_slice()) {
                    return None;
                }
                let r2 = skip_bytes(r, 5);
                match split_space_bytes(r2) {
                    None => None,
                    Some((abytes, t)) => {
                        if !has_prefix(t, tw.as_slice()) {
                            return None;
                        }
                        let bbytes = skip_bytes(t, 3);
                        move_from_numbers(nbytes, abytes, bbytes)
                    },
                }
            },
        }
    }
}

/// A fresh copy of `b`.
fn copy_bytes(b: &[u8]) -> (r: Vec<u8>)
    ensures
        r@ == b@,
{
    let mut r: Vec<u8> = Vec::new();
    let mut i: usize = 0;
    while i < b.len()
        invariant
            i <= b@.len(),
            r@ == b@.subrange(0, i as int),
        decreases b.len() - i,
    {
        r.push(b[i]);
        assert(r@ == b@.subrange(0, i as int + 1));
        i += 1;
    }
    assert(b@.subrange(0, b@.len() as int) == b@);
    r
}

/// A fresh copy of the stacks.
fn copy_stacks(st: &Vec<Vec<u8>>) -> (r: Vec<Vec<u8>>)
    ensures
        view_stacks(r@) == view_stacks(st@),
        r@.len() == st@.len(),
{
    let mut r: Vec<Vec<u8>> = Vec::new();
    let mut i: usize = 0;
    while i < st.len()
        invariant
            i <= st@.len(),
            view_stacks(r@) == view_stacks(st@.subrange(0, i as int)),
            r@.len() == i,
        decreases st.len() - i,
    {
        let c = copy_bytes(st[i].as_slice());
        let ghost old_r = r@;
        r.push(c);
        assert forall|k: int| 0 <= k < i + 1 implies #[trigger] view_stacks(r@)[k] == view_stacks(
            st@.subrange(0, i as int + 1),
        )[k] by {
            if k < i {
                assert(view_stacks(old_r)[k] == view_stacks(st@.subrange(0, i as int))[k]);
            }
        }
        assert(view_stacks(r@) =~= view_stacks(st@.subrange(0, i as int + 1)));
        i += 1;
    }
    assert(st@.subrange(0, st@.len() as int) == st@);
    r
}

/// A fresh copy of the moves.
fn copy_moves(m: &Vec<Move>) -> (r: Vec<Move>)
    ensures
        r@ == m@,
{
    let mut r: Vec<Move> = Vec::new();
    let mut i: usize = 0;
    while i < m.len()
        invariant
            i <= m@.len(),
            r@ == m@.subrange(0, i as int),
        decreases m.len() - i,
    {
        r.push(m[i]);
        assert(r@ == m@.subrange(0, i as int + 1));
        i += 1;
    }
    assert(m@.subrange(0, m@.len() as int) == m@);
    r
}

/// The stacks of a drawing whose last row holds the stack labels.
pub fn parse_stacks(input: &Vec<Vec<u8>>) -> (r: Vec<Vec<u8>>)
    requires
        input@.len() > 0,
    ensures
        view_stacks(r@) == stacks_of(view_stacks(input@)),
{
    let ghost rows = view_stacks(input@);
    let h = input.len();
    let num_row = &input[h - 1];
    assert(num_row@ == rows.last());
    let mut res: Vec<Vec<u8>> = Vec::new();
    let mut i: usize = 0;
    while i < num_row.len()
        invariant
            rows == view_stacks(input@),
            h == input@.len(),
            h > 0,
            num_row@ == rows.last(),
            i <= num_row@.len(),
            view_stacks(res@) == stacks_upto(rows, i as int),
        decreases num_row.len() - i,
    {
        if DIGIT_ZERO <= num_row[i] && num_row[i] <= DIGIT_NINE {
            let mut col: Vec<u8> = Vec::new();
            let mut k: usize = h - 1;
            while k > 0 && i < input[k - 1].len() && (
            (65 <= input[k - 1][i] && input[k - 1][i] <= 90) || (97 <= input[k - 1][i]
                && input[k - 1][i] <= 122))
                invariant
                    rows == view_stacks(input@),
                    h == input@.len(),
                    k <= h - 1,
                    col@ + column(rows, i as int, k as int) == column(rows, i as int, h - 1),
                decreases k,
            {
                assert(rows[k - 1] == input@[k - 1]@);
                let b = input[k - 1][i];
                assert(column(rows, i as int, k as int) == seq![b] + column(rows, i as int, k - 1));
                col.push(b);
                assert(col@ + column(rows, i as int, k - 1) == column(rows, i as int, h - 1));
                k -= 1;
            }
            proof {
                if k > 0 {
                    assert(rows[k - 1] == input@[k - 1]@);
                }
                assert(column(rows, i as int, k as int) == Seq::<u8>::empty());
                assert(col@ == col@ + Seq::<u8>::empty());
            }
            res.push(col);
            assert(view_stacks(res@) == stacks_upto(rows, i as int + 1));
        }
        i += 1;
    }
    res
}

/// Every move names stacks that exist.
pub fn check_moves(moves: &Vec<Move>, count: usize) -> (r: bool)
    ensures
        r == moves_valid(moves@, count as int),
{
    let mut i: usize = 0;
    while i < moves.len()
        invariant
            i <= moves@.len(),
            forall|j: int|
                0 <= j < i ==> 1 <= (#[trigger] moves@[j]).from <= count && 1 <= moves@[j].to <= count,
        decreases moves.len() - i,
    {
        let m = moves[i];
        if m.from < 1 || m.from > count || m.to < 1 || m.to > count {
            assert(!(1 <= moves@[i as int].from <= count && 1 <= moves@[i as int].to <= count));
            return false;
        }
        i += 1;
    }
    true
}

/// The top crates after moving one crate at a time.
pub fn part1(input: &StackData) -> (r: Vec<u8>)
    requires
        moves_valid(input.moves@, input.stacks@.len() as int),
    ensures
        r@ == tops(run_single(view_stacks(input.stacks@), input.moves@)),
{
    let mut copy = StackData { stacks: copy_stacks(&input.stacks), moves: copy_moves(&input.moves) };
    copy.perform_moves();
    copy.get_top_values()
}

/// The top crates after moving blocks; `None` where a move asks for more
/// crates than its stack holds.
pub fn part2(input: &mut StackData) -> (r: Option<Vec<u8>>)
    requires
        moves_valid(old(input).moves@, old(input).stacks@.len() as int),
    ensures
        match run_batched(view_stacks(old(input).stacks@), old(input).moves@) {
            Some(st) => r is Some && r->0@ == tops(st),
            None => r is None,
        },
{
    if input.perform_moves_batched() {
        Some(input.get_top_values())
    } else {
        None
    }
}

proof fn lemma_header_prefix(lines: Seq<Seq<u8>>, i: int)
    requires
        0 <= i <= lines.len(),
        forall|j: int| 0 <= j < i ==> (#[trigger] lines[j]).len() > 0,
        i == lines.len() || lines[i].len() == 0,
    ensures
        header(lines) == lines.subrange(0, i),
    decreases i,
{
    if i > 0 {
        let rest = lines.drop_first();
        assert forall|j: int| 0 <= j < i - 1 implies (#[trigger] rest[j]).len() > 0 by {
            assert(rest[j] == lines[j + 1]);
        }
        if i < lines.len() {
            assert(rest[i - 1] == lines[i]);
        }
        lemma_header_prefix(rest, i - 1);
        assert(lines.subrange(0, i) == seq![lines[0]] + rest.subrange(0, i - 1));
    } else {
        assert(lines.subrange(0, 0) == Seq::<Seq<u8>>::empty());
    }
}

proof fn lemma_moves_fail_extends(lines: Seq<Seq<u8>>, n: int)
    requires
        0 <= n <= lines.len(),
        moves_of(lines.subrange(0, n)) is None,
    ensures
        moves_of(lines) is None,
    decreases lines.len() - n,
{
    if n < lines.len() {
        assert(lines.subrange(0, n + 1).drop_last() == lines.subrange(0, n));
        lemma_moves_fail_extends(lines, n + 1);
    } else {
        assert(lines.subrange(0, n) == lines);
    }
}

/// The lines before the first empty one, as bytes.
fn read_header(raw_input: &[String]) -> (r: Vec<Vec<u8>>)
    ensures
        view_stacks(r@) == header(all_line_bytes(raw_input@)),
{
    let ghost lines = all_line_bytes(raw_input@);
    let mut rows: Vec<Vec<u8>> = Vec::new();
    let mut i: usize = 0;
    while i < raw_input.len() && raw_input[i].as_str().as_bytes().len() > 0
        invariant
            lines == all_line_bytes(raw_input@),
            i <= raw_input@.len(),
            forall|j: int| 0 <= j < i ==> (#[trigger] lines[j]).len() > 0,
            view_stacks(rows@) == lines.subrange(0, i as int),
            rows@.len() == i,
        decreases raw_input.len() - i,
    {
        let b = raw_input[i].as_str().as_bytes();
        assert(b@ == lines[i as int]);
        let ghost old_rows = rows@;
        let row = copy_bytes(b);
        assert(row@ == lines[i as int]);
        rows.push(row);
        assert forall|k: int| 0 <= k < i + 1 implies #[trigger] view_stacks(rows@)[k] == lines.subrange(
            0,
            i as int + 1,
        )[k] by {
            if k < i {
                assert(view_stacks(old_rows)[k] == lines.subrange(0, i as int)[k]);
                assert(rows@[k] == old_rows[k]);
            } else {
                assert(rows@[k] == row);
                assert(lines.subrange(0, i as int + 1)[k] == lines[k]);
            }
        }
        assert(view_stacks(rows@) =~= lines.subrange(0, i as int + 1));
        i += 1;
    }
    proof {
        if i < raw_input@.len() {
            assert(lines[i as int] == line_bytes(raw_input@[i as int]));
        }
        lemma_header_prefix(lines, i as int);
    }
    rows
}

/// The moves of the lines that start with `move `.
fn read_moves(raw_input: &[String]) -> (r: Result<Vec<Move>, ()>)
    ensures
        match moves_of(all_line_bytes(raw_input@)) {
            Some(m) => r is Ok && r->Ok_0@ == m,
            None => r is Err,
        },
{
    let ghost lines = all_line_bytes(raw_input@);
    let mw = vec![109u8, 111u8, 118u8, 101u8, 32u8];
    assert(mw@ == move_word());
    let mut moves: Vec<Move> = Vec::new();
    let mut i: usize = 0;
    while i < raw_input.len()
        invariant
            lines == all_line_bytes(raw_input@),
            mw@ == move_word(),
            i <= raw_input@.len(),
            moves_of(lines.subrange(0, i as int)) == Some(moves@),
        decreases raw_input.len() - i,
    {
        let b = raw_input[i].as_str().as_bytes();
        assert(b@ == lines[i as int]);
        assert(lines.subrange(0, i as int + 1).drop_last() == lines.subrange(0, i as int));
        if has_prefix(b, mw.as_slice()) {
            match Move::from_bytes(b) {
                Some(m) => moves.push(m),
                None => {
                    proof {
                        lemma_moves_fail_extends(lines, i as int + 1);
                    }
                    return Err(());
                },
            }
        }
        i += 1;
    }
    assert(lines.subrange(0, lines.len() as int) == lines);
    Ok(moves)
}

/// The drawing above the first empty line, and the moves; `Err` without a
/// drawing, or where a line that starts with `move ` is not a move.
pub fn parse_input(raw_input: &[String]) -> (r: Result<StackData, ()>)
    ensures
        match r {
            Ok(d) => header(all_line_bytes(raw_input@)).len() > 0 && view_stacks(d.stacks@) == stacks_of(
                header(all_line_bytes(raw_input@)),
            ) && moves_of(all_line_bytes(raw_input@)) == Some(d.moves@),
            Err(_) => header(all_line_bytes(raw_input@)).len() == 0 || moves_of(
                all_line_bytes(raw_input@),
            ) is None,
        },
{
    let rows = read_header(raw_input);
    if rows.len() == 0 {
        return Err(());
    }
    let stacks = parse_stacks(&rows);
    let moves = read_moves(raw_input)?;
    Ok(StackData { stacks, moves })
}

/// The top crates after both kinds of move; `Err` where the input does not
/// parse or a move names a missing stack.
pub fn solve(raw_input: &[String]) -> (r: Result<(Vec<u8>, Option<Vec<u8>>), ()>)
    ensures
        match r {
            Ok((a, b)) => {
                let lines = all_line_bytes(raw_input@);
                let st = stacks_of(header(lines));
                let moves = moves_of(lines)->0;
                &&& header(lines).len() > 0
                &&& moves_of(lines) is Some
                &&& moves_valid(moves, st.len() as int)
                &&& a@ == tops(run_single(st, moves))
                &&& match run_batched(st, moves) {
                    Some(fin) => b is Some && b->0@ == tops(fin),
                    None => b is None,
                }
            },
            Err(_) => {
                let lines = all_line_bytes(raw_input@);
                header(lines).len() == 0 || moves_of(lines) is None || !moves_valid(
                    moves_of(lines)->0,
                    stacks_of(header(lines)).len() as int,
                )
            },
        },
{
    let mut input = parse_input(raw_input)?;
    if !check_moves(&input.moves, input.stacks.len()) {
        return Err(());
    }
    let a = part1(&input);
    let b = part2(&mut input);
    Ok((a, b))
}

} // verus!
