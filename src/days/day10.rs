use vstd::prelude::*;
use crate::text::{line_bytes, parse_signed, signed_of};

verus! {

/// One step of the program: `addx v` is read as `SetY(v)` then `AddXY`.
#[derive(Clone, Copy, Debug, PartialEq, Eq, Structural)]
pub enum Instruction {
    Noop,
    SetY(i32),
    AddXY,
}

/// The register `x`, the pending addend `y`, and the cycles run so far.
#[derive(Clone, Copy, Debug, PartialEq, Eq, Structural)]
pub struct Cpu {
    pub x: i64,
    pub y: i64,
    pub cycle: usize,
}

/// The first cycle whose signal is sampled, counted from zero.
pub const FIRST_SAMPLE: usize = 19;

/// Cycles between samples, and the width of a screen row.
pub const PERIOD: usize = 40;

/// Pixels on the screen: six rows.
pub const SCREEN: usize = 240;

/// Register `x` once the first `k` instructions have run.
pub open spec fn x_after(instrs: Seq<Instruction>, k: int) -> int
    decreases k,
{
    if k <= 0 {
        1
    } else {
        match instrs[k - 1] {
            Instruction::AddXY => x_after(instrs, k - 1) + y_after(instrs, k - 1),
            _ => x_after(instrs, k - 1),
        }
    }
}

/// Register `y` once the first `k` instructions have run.
pub open spec fn y_after(instrs: Seq<Instruction>, k: int) -> int
    decreases k,
{
    if k <= 0 {
        0
    } else {
        match instrs[k - 1] {
            Instruction::SetY(v) => v as int,
            _ => y_after(instrs, k - 1),
        }
    }
}

pub open spec fn sampled(i: int) -> bool {
    i % (PERIOD as int) == FIRST_SAMPLE as int
}

/// The signal of cycle `i`: `x` during that cycle times its one-based number.
pub open spec fn signal_at(instrs: Seq<Instruction>, i: int) -> int {
    x_after(instrs, i) * (i + 1)
}

/// The summed signal of the sampled cycles among the first `k`.
pub open spec fn signal_total(instrs: Seq<Instruction>, k: int) -> int
    decreases k,
{
    if k <= 0 {
        0
    } else if sampled(k - 1) {
        signal_total(instrs, k - 1) + signal_at(instrs, k - 1)
    } else {
        signal_total(instrs, k - 1)
    }
}

pub open spec fn in_i64(v: int) -> bool {
    i64::MIN <= v <= i64::MAX
}

/// The values computed at instruction `i` fit in an `i64`.
pub open spec fn step_fits(instrs: Seq<Instruction>, i: int) -> bool {
    in_i64(x_after(instrs, i + 1)) && (sampled(i) ==> in_i64(signal_at(instrs, i)) && in_i64(
        signal_total(instrs, i + 1),
    ))
}

/// Every value the run computes, up to instruction `k`, fits in an `i64`.
pub open spec fn run_fits(instrs: Seq<Instruction>, k: int) -> bool {
    forall|i: int| 0 <= i < k ==> #[trigger] step_fits(instrs, i)
}

impl Cpu {
    pub fn new() -> (r: Cpu)
        ensures
            r.x == 1 && r.y == 0 && r.cycle == 0,
    {
        Cpu { x: 1, y: 0, cycle: 0 }
    }

    pub fn bump_cycle(&mut self)
        requires
            old(self).cycle < usize::MAX,
        ensures
            *final(self) == (Cpu { cycle: (old(self).cycle + 1) as usize, ..*old(self) }),
    {
        self.cycle += 1;
    }

    /// Runs one instruction.
    pub fn perform(&mut self, task: &Instruction)
        requires
            *task == Instruction::AddXY ==> in_i64(old(self).x + old(self).y),
        ensures
            final(self).cycle == old(self).cycle,
            final(self).x == (match *task {
                Instruction::AddXY => old(self).x + old(self).y,
                _ => old(self).x as int,
            }),
            final(self).y == (match *task {
                Instruction::SetY(v) => v as int,
                _ => old(self).y as int,
            }),
    {
        match task {
            Instruction::Noop => {},
            Instruction::SetY(v) => self.y = *v as i64,
            Instruction::AddXY => self.x = self.x + self.y,
        }
    }

    /// `x` times the cycle number, or `None` where that leaves an `i64`.
    pub fn get_signal_strength(&self) -> (r: Option<i64>)
        ensures
            match r {
                Some(v) => v == self.x * self.cycle,
                None => !in_i64(self.x * self.cycle),
            },
    {
        proof {
            let (x, c) = (self.x as int, self.cycle as int);
            assert(-0x8000_0000_0000_0000 * 0xffff_ffff_ffff_ffff <= x * c <= 0x7fff_ffff_ffff_ffff
                * 0xffff_ffff_ffff_ffff) by (nonlinear_arith)
                requires
                    -0x8000_0000_0000_0000 <= x <= 0x7fff_ffff_ffff_ffff,
                    0 <= c <= 0xffff_ffff_ffff_ffff,
            ;
        }
        let v = self.x as i128 * self.cycle as i128;
        if v < i64::MIN as i128 || v > i64::MAX as i128 {
            None
        } else {
            Some(v as i64)
        }
    }
}

proof fn lemma_y_in_i32(instrs: Seq<Instruction>, k: int)
    ensures
        i32::MIN <= y_after(instrs, k) <= i32::MAX,
    decreases k,
{
    if k > 0 {
        lemma_y_in_i32(instrs, k - 1);
    }
}

/// A value that leaves an `i64` at instruction `k` leaves the run unfit.
proof fn lemma_fits_fails(s: Seq<Instruction>, k: int)
    requires
        0 <= k < s.len(),
        !step_fits(s, k),
    ensures
        !run_fits(s, s.len() as int),
{
    if run_fits(s, s.len() as int) {
        assert(step_fits(s, k));
    }
}

/// The summed signal strength of cycles 20, 60, 100, and so on, or `None`
/// where a value on the way leaves an `i64`.
pub fn part1(input: &Vec<Instruction>) -> (r: Option<i64>)
    ensures
        match r {
            Some(v) => run_fits(input@, input@.len() as int) && v == signal_total(input@, input@.len() as int),
            None => !run_fits(input@, input@.len() as int),
        },
{
    let mut cpu = Cpu::new();
    let mut signal_sum: i64 = 0;
    let mut i: usize = 0;
    while i < input.len()
        invariant
            i <= input@.len(),
            cpu.cycle == i,
            cpu.x == x_after(input@, i as int),
            cpu.y == y_after(input@, i as int),
            signal_sum == signal_total(input@, i as int),
            run_fits(input@, i as int),
        decreases input.len() - i,
    {
        cpu.bump_cycle();
        let ghost s = input@;
        let ghost k = i as int;
        proof {
            lemma_y_in_i32(s, k);
        }
        if i % PERIOD == FIRST_SAMPLE {
            match cpu.get_signal_strength() {
                Some(sum) => {
                    let total = signal_sum as i128 + sum as i128;
                    if total < i64::MIN as i128 || total > i64::MAX as i128 {
                        proof {
                            assert(!in_i64(signal_total(s, k + 1)));
                            lemma_fits_fails(s, k);
                        }
                        return None;
                    }
                    signal_sum = total as i64;
                },
                None => {
                    proof {
                        assert(!in_i64(signal_at(s, k)));
                        lemma_fits_fails(s, k);
                    }
                    return None;
                },
            }
        }
        assert(signal_sum == signal_total(s, k + 1));
        assert(sampled(k) ==> in_i64(signal_at(s, k)) && in_i64(signal_total(s, k + 1)));
        let task = input[i];
        if task == Instruction::AddXY {
            let nx = cpu.x as i128 + cpu.y as i128;
            if nx < i64::MIN as i128 || nx > i64::MAX as i128 {
                proof {
                    assert(!in_i64(x_after(s, k + 1)));
                    lemma_fits_fails(s, k);
                }
                return None;
            }
        }
        cpu.perform(&task);
        proof {
            assert(cpu.x == x_after(s, k + 1));
            assert(cpu.y == y_after(s, k + 1));
            assert(step_fits(s, k));
            assert forall|j: int| 0 <= j < k + 1 implies #[trigger] step_fits(s, j) by {
                if j < k {
                    assert(run_fits(s, k));
                }
            }
        }
        i += 1;
    }
    Some(signal_sum)
}

proof fn lemma_x_bounded(instrs: Seq<Instruction>, k: int)
    requires
        0 <= k,
    ensures
        -(1 + k * 0x8000_0000) <= x_after(instrs, k) <= 1 + k * 0x8000_0000,
    decreases k,
{
    if k > 0 {
        lemma_x_bounded(instrs, k - 1);
        lemma_y_in_i32(instrs, k - 1);
    }
}

/// Pixel `i` is lit: the cycle ran and the three-wide sprite centred on `x`
/// covers column `i % 40`.
pub open spec fn lit(instrs: Seq<Instruction>, i: int) -> bool {
    i < instrs.len() && -1 <= x_after(instrs, i) - i % (PERIOD as int) <= 1
}

/// The screen, row by row: which of its pixels are lit.
pub fn part2(input: &Vec<Instruction>) -> (r: Vec<bool>)
    ensures
        r@.len() == SCREEN,
        forall|i: int| 0 <= i < SCREEN ==> r@[i] == lit(input@, i),
{
    let mut crt: Vec<bool> = Vec::new();
    let mut cpu = Cpu::new();
    let mut i: usize = 0;
    while i < SCREEN
        invariant
            i <= SCREEN,
            crt@.len() == i,
            cpu.cycle == i,
            i <= input@.len() ==> cpu.x == x_after(input@, i as int) && cpu.y == y_after(input@, i as int),
            forall|j: int| 0 <= j < i ==> crt@[j] == lit(input@, j),
        decreases SCREEN - i,
    {
        cpu.bump_cycle();
        if i < input.len() {
            let col = (i % PERIOD) as i64;
            proof {
                lemma_x_bounded(input@, i as int);
                assert(i * 0x8000_0000 <= 240 * 0x8000_0000) by (nonlinear_arith)
                    requires
                        i <= 240,
                ;
            }
            let d = cpu.x - col;
            crt.push(-1 <= d && d <= 1);
            proof {
                lemma_y_in_i32(input@, i as int);
            }
            let task = input[i];
            cpu.perform(&task);
            assert(cpu.x == x_after(input@, i + 1));
        } else {
            crt.push(false);
        }
        i += 1;
    }
    crt
}

/// `l` starts with `addx `.
pub open spec fn is_addx(l: Seq<u8>) -> bool {
    l.len() >= 5 && l[0] == 97 && l[1] == 100 && l[2] == 100 && l[3] == 120 && l[4] == 32
}

/// The instructions of a program: `addx v` gives `SetY(v)` then `AddXY`, any
/// other line `Noop`; no result where an `addx` operand is not an `i32`.
pub open spec fn instrs_of(lines: Seq<String>) -> Option<Seq<Instruction>>
    decreases lines.len(),
{
    if lines.len() == 0 {
        Some(seq![])
    } else {
        match instrs_of(lines.drop_last()) {
            None => None,
            Some(prev) => {
                let l = line_bytes(lines.last());
                if is_addx(l) {
                    match signed_of(l.subrange(5, l.len() as int)) {
                        Some(v) => Some(prev.push(Instruction::SetY(v)).push(Instruction::AddXY)),
                        None => None,
                    }
                } else {
                    Some(prev.push(Instruction::Noop))
                }
            },
        }
    }
}

proof fn lemma_instrs_fail_extends(lines: Seq<String>, n: int)
    requires
        0 <= n <= lines.len(),
        instrs_of(lines.subrange(0, n)) is None,
    ensures
        instrs_of(lines) is None,
    decreases lines.len() - n,
{
    if n < lines.len() {
        assert(lines.subrange(0, n + 1).drop_last() == lines.subrange(0, n));
        lemma_instrs_fail_extends(lines, n + 1);
    } else {
        assert(lines.subrange(0, n) == lines);
    }
}

pub fn parse_input(raw_input: &[String]) -> (r: Result<Vec<Instruction>, ()>)
    ensures
        match instrs_of(raw_input@) {
            Some(instrs) => r is Ok && r->Ok_0@ == instrs,
            None => r is Err,
        },
{
    let mut res: Vec<Instruction> = Vec::new();
    let mut i: usize = 0;
    while i < raw_input.len()
        invariant
            i <= raw_input@.len(),
            instrs_of(raw_input@.subrange(0, i as int)) == Some(res@),
        decreases raw_input.len() - i,
    {
        let bytes = raw_input[i].as_str().as_bytes();
        let n = bytes.len();
        let ghost prefix = raw_input@.subrange(0, i as int + 1);
        assert(prefix.drop_last() == raw_input@.subrange(0, i as int));
        assert(bytes@ == line_bytes(prefix.last()));
        if n >= 5 && bytes[0] == 97 && bytes[1] == 100 && bytes[2] == 100 && bytes[3] == 120 && bytes[4] == 32 {
            match parse_signed(&bytes[5..n]) {
                Some(v) => {
                    res.push(Instruction::SetY(v));
                    res.push(Instruction::AddXY);
                },
                None => {
                    proof {
                        lemma_instrs_fail_extends(raw_input@, i as int + 1);
                    }
                    return Err(());
                },
            }
        } else {
            res.push(Instruction::Noop);
        }
        i += 1;
    }
    assert(raw_input@.subrange(0, raw_input@.len() as int) == raw_input@);
    Ok(res)
}

/// The summed signal strength and the screen; `Err` where an `addx` operand
/// is not an `i32`.
pub fn solve(raw_input: &[String]) -> (r: Result<(Option<i64>, Vec<bool>), ()>)
    ensures
        match instrs_of(raw_input@) {
            Some(instrs) => r is Ok && match r->Ok_0.0 {
                Some(v) => run_fits(instrs, instrs.len() as int) && v == signal_total(instrs, instrs.len() as int),
                None => !run_fits(instrs, instrs.len() as int),
            } && r->Ok_0.1@.len() == SCREEN && forall|i: int| 0 <= i < SCREEN ==> r->Ok_0.1@[i] == lit(instrs, i),
            None => r is Err,
        },
{
    let input = parse_input(raw_input)?;
    Ok((part1(&input), part2(&input)))
}

} // verus!
