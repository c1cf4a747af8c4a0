use vstd::prelude::*;
use crate::text::{decimal_of, find_byte, first_index, line_bytes, parse_decimal};

verus! {

/// The byte `-` between the bounds of a range.
pub const DASH: u8 = 45;

/// The byte `,` between the two ranges of a pair.
pub const COMMA: u8 = 44;

/// The section range `from..=to`.
#[derive(Clone, Copy, Debug, PartialEq, Eq, Structural)]
pub struct Assignment {
    pub from: u64,
    pub to: u64,
}

/// Two elves' ranges.
#[derive(Clone, Copy, Debug, PartialEq, Eq, Structural)]
pub struct Pair(pub Assignment, pub Assignment);

impl Assignment {
    /// `other` lies within `self`.
    pub fn contains(&self, other: &Assignment) -> (r: bool)
        ensures
            r == (self.from <= other.from && self.to >= other.to),
    {
        self.from <= other.from && self.to >= other.to
    }

    /// The start of `other` lies within `self`.
    pub fn overlaps_start_of(&self, other: &Assignment) -> (r: bool)
        ensures
            r == (self.from <= other.from && self.to >= other.from),
    {
        self.from <= other.from && self.to >= other.from
    }

    /// Reads `from-to`, splitting at the first `-`.
    pub fn from_bytes(s: &[u8]) -> (r: Result<Assignment, ()>)
        ensures
            r == (match assignment_of(s@) {
                Some(a) => Ok::<Assignment, ()>(a),
                None => Err(()),
            }),
    {
        match find_byte(s, DASH) {
            Some(k) => {
                let n = s.len();
                let from = parse_decimal(&s[0..k]);
                let to = parse_decimal(&s[k + 1..n]);
                match (from, to) {
                    (Some(from), Some(to)) => Ok(Assignment { from, to }),
                    _ => Err(()),
                }
            },
            None => Err(()),
        }
    }
}

/// The range that `s` spells, split at its first `-`.
pub open spec fn assignment_of(s: Seq<u8>) -> Option<Assignment> {
    match first_index(s, DASH) {
        Some(k) => match (decimal_of(s.subrange(0, k)), decimal_of(s.subrange(k + 1, s.len() as int))) {
            (Some(from), Some(to)) => Some(Assignment { from, to }),
            _ => None,
        },
        None => None,
    }
}

/// The pair that `s` spells, split at its first `,`.
pub open spec fn pair_of(s: Seq<u8>) -> Option<Pair> {
    match first_index(s, COMMA) {
        Some(k) => match (assignment_of(s.subrange(0, k)), assignment_of(s.subrange(k + 1, s.len() as int))) {
            (Some(a), Some(b)) => Some(Pair(a, b)),
            _ => None,
        },
        None => None,
    }
}

pub open spec fn contained_spec(p: Pair) -> bool {
    (p.0.from <= p.1.from && p.0.to >= p.1.to) || (p.1.from <= p.0.from && p.1.to >= p.0.to)
}

pub open spec fn overlapped_spec(p: Pair) -> bool {
    (p.0.from <= p.1.from && p.0.to >= p.1.from) || (p.1.from <= p.0.from && p.1.to >= p.0.from)
}

impl Pair {
    /// Reads `a-b,c-d`, splitting at the first `,`.
    pub fn from_bytes(s: &[u8]) -> (r: Result<Pair, ()>)
        ensures
            r == (match pair_of(s@) {
                Some(p) => Ok::<Pair, ()>(p),
                None => Err(()),
            }),
    {
        match find_byte(s, COMMA) {
            Some(k) => {
                let n = s.len();
                let first = Assignment::from_bytes(&s[0..k]);
                let second = Assignment::from_bytes(&s[k + 1..n]);
                match (first, second) {
                    (Ok(a), Ok(b)) => Ok(Pair(a, b)),
                    _ => Err(()),
                }
            },
            None => Err(()),
        }
    }

    /// One range lies within the other.
    pub fn is_contained(&self) -> (r: bool)
        ensures
            r == contained_spec(*self),
    {
        self.0.contains(&self.1) || self.1.contains(&self.0)
    }

    /// The two ranges share a section.
    pub fn is_overlapped(&self) -> (r: bool)
        ensures
            r == overlapped_spec(*self),
    {
        self.0.overlaps_start_of(&self.1) || self.1.overlaps_start_of(&self.0)
    }
}

/// The pairs of all lines, if every line is a pair.
pub open spec fn pairs_of(lines: Seq<String>) -> Option<Seq<Pair>>
    decreases lines.len(),
{
    if lines.len() == 0 {
        Some(seq![])
    } else {
        match (pairs_of(lines.drop_last()), pair_of(line_bytes(lines.last()))) {
            (Some(prev), Some(p)) => Some(prev.push(p)),
            _ => None,
        }
    }
}

proof fn lemma_pairs_fail_extends(lines: Seq<String>, n: int)
    requires
        0 <= n <= lines.len(),
        pairs_of(lines.subrange(0, n)) is None,
    ensures
        pairs_of(lines) is None,
    decreases lines.len() - n,
{
    if n < lines.len() {
        assert(lines.subrange(0, n + 1).drop_last() == lines.subrange(0, n));
        lemma_pairs_fail_extends(lines, n + 1);
    } else {
        assert(lines.subrange(0, n) == lines);
    }
}

#[verifier::rlimit(40)]
pub fn parse_input(raw_input: &[String]) -> (r: Result<Vec<Pair>, ()>)
    ensures
        match pairs_of(raw_input@) {
            Some(pairs) => r is Ok && r->Ok_0@ == pairs,
            None => r is Err,
        },
{
    let mut res: Vec<Pair> = Vec::new();
    let mut i: usize = 0;
    while i < raw_input.len()
        invariant
            i <= raw_input@.len(),
            pairs_of(raw_input@.subrange(0, i as int)) == Some(res@),
        decreases raw_input.len() - i,
    {
        let bytes = raw_input[i].as_str().as_bytes();
        let ghost prefix = raw_input@.subrange(0, i as int + 1);
        assert(prefix.drop_last() == raw_input@.subrange(0, i as int));
        assert(bytes@ == line_bytes(prefix.last()));
        match Pair::from_bytes(bytes) {
            Ok(p) => res.push(p),
            Err(_) => {
                proof {
                    lemma_pairs_fail_extends(raw_input@, i as int + 1);
                }
                return Err(());
            },
        }
        i += 1;
    }
    assert(raw_input@.subrange(0, raw_input@.len() as int) == raw_input@);
    Ok(res)
}

/// How many pairs have one range inside the other.
pub open spec fn count_contained(pairs: Seq<Pair>) -> nat
    decreases pairs.len(),
{
    if pairs.len() == 0 {
        0
    } else {
        count_contained(pairs.drop_last()) + if contained_spec(pairs.last()) { 1nat } else { 0nat }
    }
}

/// How many pairs share a section.
pub open spec fn count_overlapped(pairs: Seq<Pair>) -> nat
    decreases pairs.len(),
{
    if pairs.len() == 0 {
        0
    } else {
        count_overlapped(pairs.drop_last()) + if overlapped_spec(pairs.last()) { 1nat } else { 0nat }
    }
}

proof fn lemma_counts_bounded(pairs: Seq<Pair>)
    ensures
        count_contained(pairs) <= pairs.len(),
        count_overlapped(pairs) <= pairs.len(),
    decreases pairs.len(),
{
    if pairs.len() > 0 {
        lemma_counts_bounded(pairs.drop_last());
    }
}

/// Pairs where one range contains the other.
pub fn part1(input: &Vec<Pair>) -> (r: usize)
    ensures
        r == count_contained(input@),
{
    let mut n: usize = 0;
    let mut i: usize = 0;
    while i < input.len()
        invariant
            i <= input@.len(),
            n == count_contained(input@.subrange(0, i as int)),
        decreases input.len() - i,
    {
        let ghost prefix = input@.subrange(0, i as int + 1);
        assert(prefix.drop_last() == input@.subrange(0, i as int));
        proof {
            lemma_counts_bounded(prefix);
        }
        if input[i].is_contained() {
            n += 1;
        }
        i += 1;
    }
    assert(input@.subrange(0, input@.len() as int) == input@);
    n
}

/// Pairs whose ranges overlap.
pub fn part2(input: &Vec<Pair>) -> (r: usize)
    ensures
        r == count_overlapped(input@),
{
    let mut n: usize = 0;
    let mut i: usize = 0;
    while i < input.len()
        invariant
            i <= input@.len(),
            n == count_overlapped(input@.subrange(0, i as int)),
        decreases input.len() - i,
    {
        let ghost prefix = input@.subrange(0, i as int + 1);
        assert(prefix.drop_last() == input@.subrange(0, i as int));
        proof {
            lemma_counts_bounded(prefix);
        }
        if input[i].is_overlapped() {
            n += 1;
        }
        i += 1;
    }
    assert(input@.subrange(0, input@.len() as int) == input@);
    n
}

/// Both counts for a list of range pairs, or `Err` where a line is not a pair.
pub fn solve(raw_input: &[String]) -> (r: Result<(usize, usize), ()>)
    ensures
        match pairs_of(raw_input@) {
            Some(pairs) => r == Ok::<(usize, usize), ()>(
                (count_contained(pairs) as usize, count_overlapped(pairs) as usize),
            ),
            None => r is Err,
        },
{
    let input = parse_input(raw_input)?;
    Ok((part1(&input), part2(&input)))
}

} // verus!
