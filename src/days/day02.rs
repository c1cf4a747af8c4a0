use vstd::prelude::*;
use crate::text::{contains_byte, line_bytes};

verus! {

/// A hand in rock, paper, scissors.
#[derive(Clone, Copy, Debug, PartialEq, Eq, Structural)]
pub enum Move {
    Rock,
    Paper,
    Scissor,
}

/// The result of a round, seen from the player.
#[derive(Clone, Copy, Debug, PartialEq, Eq, Structural)]
pub enum Outcome {
    Loose,
    Draw,
    Win,
}

impl Move {
    pub open spec fn spec_index(self) -> int {
        match self {
            Move::Rock => 0,
            Move::Paper => 1,
            Move::Scissor => 2,
        }
    }

    /// Rock 0, paper 1, scissors 2.
    pub fn index(&self) -> (r: u8)
        ensures
            r == self.spec_index(),
    {
        match self {
            Move::Rock => 0,
            Move::Paper => 1,
            Move::Scissor => 2,
        }
    }

    /// The hand with index `item`.
    pub fn from_index(item: u8) -> (r: Move)
        requires
            item < 3,
        ensures
            r.spec_index() == item,
    {
        if item == 0 {
            Move::Rock
        } else if item == 1 {
            Move::Paper
        } else {
            Move::Scissor
        }
    }
}

impl Outcome {
    pub open spec fn spec_index(self) -> int {
        match self {
            Outcome::Loose => 0,
            Outcome::Draw => 1,
            Outcome::Win => 2,
        }
    }

    /// Loss 0, draw 1, win 2.
    pub fn index(&self) -> (r: u8)
        ensures
            r == self.spec_index(),
    {
        match self {
            Outcome::Loose => 0,
            Outcome::Draw => 1,
            Outcome::Win => 2,
        }
    }

    /// The outcome with index `item`.
    pub fn from_index(item: u8) -> (r: Outcome)
        requires
            item < 3,
        ensures
            r.spec_index() == item,
    {
        if item == 0 {
            Outcome::Loose
        } else if item == 1 {
            Outcome::Draw
        } else {
            Outcome::Win
        }
    }
}

/// Each hand beats the one just below it, cyclically: the outcome index is
/// `player - opponent + 1`, modulo three.
pub open spec fn outcome_of(player: int, opponent: int) -> int {
    (player - opponent + 4) % 3
}

/// The hand that gives `outcome` against `opponent`.
pub open spec fn move_for(opponent: int, outcome: int) -> int {
    (opponent + outcome + 2) % 3
}

/// Points for a round: the hand's index plus one, and three per outcome step.
pub open spec fn score_of(my_move: int, outcome: int) -> int {
    my_move + 1 + 3 * outcome
}

/// How the round ends for `player`.
pub fn get_outcome(player: &Move, opponent: &Move) -> (r: Outcome)
    ensures
        r.spec_index() == outcome_of(player.spec_index(), opponent.spec_index()),
{
    let player = player.index();
    let opponent = opponent.index();
    let opp_loosing_hand = (3 + player - 1) % 3;
    let opp_winning_hand = (3 + player + 1) % 3;
    if opponent == opp_winning_hand {
        Outcome::Loose
    } else if opponent == opp_loosing_hand {
        Outcome::Win
    } else {
        Outcome::Draw
    }
}

/// The hand that, against `opponent`, gives `outcome`.
pub fn find_winning_move(opponent: &Move, outcome: &Outcome) -> (r: Move)
    ensures
        r.spec_index() == move_for(opponent.spec_index(), outcome.spec_index()),
        outcome_of(r.spec_index(), opponent.spec_index()) == outcome.spec_index(),
{
    let opponent = opponent.index() + 3;
    let delta = outcome.index() + 2;
    Move::from_index((opponent + delta) % 3)
}

pub fn get_score(my_move: &Move, outcome: &Outcome) -> (r: u8)
    ensures
        r == score_of(my_move.spec_index(), outcome.spec_index()),
{
    let move_val = my_move.index() + 1;
    let outcome_val = outcome.index() * 3;
    move_val + outcome_val
}

/// `A`/`X` is 0, `B`/`Y` is 1, `C`/`Z` is 2.
pub open spec fn symbol_index(c: u8) -> Option<u8> {
    if c == 65 || c == 88 {
        Some(0u8)
    } else if c == 66 || c == 89 {
        Some(1u8)
    } else if c == 67 || c == 90 {
        Some(2u8)
    } else {
        None
    }
}

/// The index of a one-byte hand symbol.
pub fn idx_from_str(s: &[u8]) -> (r: Result<u8, ()>)
    ensures
        r is Ok <==> (s@.len() == 1 && symbol_index(s@[0]) is Some),
        r is Ok ==> r->Ok_0 == symbol_index(s@[0])->0,
{
    if s.len() != 1 {
        return Err(());
    }
    let c = s[0];
    if c == 65 || c == 88 {
        Ok(0)
    } else if c == 66 || c == 89 {
        Ok(1)
    } else if c == 67 || c == 90 {
        Ok(2)
    } else {
        Err(())
    }
}

/// A line `l r` with two hand symbols around one space.
pub open spec fn round_of(line: Seq<u8>) -> Option<(u8, u8)> {
    if line.len() == 3 && line[1] == 32 && symbol_index(line[0]) is Some && symbol_index(
        line[2],
    ) is Some {
        Some((symbol_index(line[0])->0, symbol_index(line[2])->0))
    } else {
        None
    }
}

/// The rounds of the input: lines without a space are skipped; any other line
/// must be a round, else there is no result.
pub open spec fn rounds_of(lines: Seq<String>) -> Option<Seq<(u8, u8)>>
    decreases lines.len(),
{
    if lines.len() == 0 {
        Some(seq![])
    } else {
        match rounds_of(lines.drop_last()) {
            None => None,
            Some(prev) => {
                let l = line_bytes(lines.last());
                if !l.contains(32) {
                    Some(prev)
                } else {
                    match round_of(l) {
                        Some(r) => Some(prev.push(r)),
                        None => None,
                    }
                }
            },
        }
    }
}

pub fn parse_input(raw_input: &[String]) -> (r: Result<Vec<(u8, u8)>, ()>)
    ensures
        match rounds_of(raw_input@) {
            Some(rounds) => r is Ok && r->Ok_0@ == rounds,
            None => r is Err,
        },
{
    let mut res: Vec<(u8, u8)> = Vec::new();
    let mut i: usize = 0;
    while i < raw_input.len()
        invariant
            i <= raw_input@.len(),
            rounds_of(raw_input@.subrange(0, i as int)) == Some(res@),
        decreases raw_input.len() - i,
    {
        let bytes = raw_input[i].as_str().as_bytes();
        let ghost prefix = raw_input@.subrange(0, i as int + 1);
        assert(prefix.drop_last() == raw_input@.subrange(0, i as int));
        assert(bytes@ == line_bytes(prefix.last()));
        if contains_byte(bytes, 32) {
            if bytes.len() != 3 || bytes[1] != 32 {
                proof {
                    lemma_rounds_fail_extends(raw_input@, i as int + 1);
                }
                return Err(());
            }
            let l = idx_from_str(&bytes[0..1]);
            match l {
                Ok(lv) => {
                    let rr = idx_from_str(&bytes[2..3]);
                    match rr {
                        Ok(rv) => {
                            res.push((lv, rv));
                        },
                        Err(_) => {
                            proof {
                                lemma_rounds_fail_extends(raw_input@, i as int + 1);
                            }
                            return Err(());
                        },
                    }
                },
                Err(_) => {
                    proof {
                        lemma_rounds_fail_extends(raw_input@, i as int + 1);
                    }
                    return Err(());
                },
            }
        }
        i += 1;
    }
    assert(raw_input@.subrange(0, raw_input@.len() as int) == raw_input@);
    Ok(res)
}

/// A prefix without rounds leaves the whole input without rounds.
proof fn lemma_rounds_fail_extends(lines: Seq<String>, n: int)
    requires
        0 <= n <= lines.len(),
        rounds_of(lines.subrange(0, n)) is None,
    ensures
        rounds_of(lines) is None,
    decreases lines.len() - n,
{
    if n < lines.len() {
        assert(lines.subrange(0, n + 1).drop_last() == lines.subrange(0, n));
        lemma_rounds_fail_extends(lines, n + 1);
    } else {
        assert(lines.subrange(0, n) == lines);
    }
}

/// Total of `score(round)` over the rounds, reading the second column as the
/// player's hand.
pub open spec fn total_by_moves(rounds: Seq<(u8, u8)>) -> int
    decreases rounds.len(),
{
    if rounds.len() == 0 {
        0
    } else {
        let (opp, pl) = rounds.last();
        total_by_moves(rounds.drop_last()) + score_of(pl as int, outcome_of(pl as int, opp as int))
    }
}

/// Total score, reading the second column as the outcome to reach.
pub open spec fn total_by_outcomes(rounds: Seq<(u8, u8)>) -> int
    decreases rounds.len(),
{
    if rounds.len() == 0 {
        0
    } else {
        let (opp, out) = rounds.last();
        total_by_outcomes(rounds.drop_last()) + score_of(move_for(opp as int, out as int), out as int)
    }
}

pub open spec fn rounds_wf(rounds: Seq<(u8, u8)>) -> bool {
    forall|k: int| 0 <= k < rounds.len() ==> #[trigger] rounds[k].0 < 3 && rounds[k].1 < 3
}

proof fn lemma_totals_bounded(rounds: Seq<(u8, u8)>)
    requires
        rounds_wf(rounds),
    ensures
        0 <= total_by_moves(rounds) <= 9 * rounds.len(),
        0 <= total_by_outcomes(rounds) <= 9 * rounds.len(),
    decreases rounds.len(),
{
    if rounds.len() > 0 {
        let k = rounds.len() - 1;
        assert(rounds[k].0 < 3 && rounds[k].1 < 3);
        lemma_totals_bounded(rounds.drop_last());
    }
}

/// The score when the second column is the player's hand.
pub fn part1(input: &Vec<(u8, u8)>) -> (r: u64)
    requires
        rounds_wf(input@),
        9 * input@.len() <= u64::MAX,
    ensures
        r == total_by_moves(input@),
{
    let mut sum: u64 = 0;
    let mut i: usize = 0;
    while i < input.len()
        invariant
            i <= input@.len(),
            rounds_wf(input@),
            9 * input@.len() <= u64::MAX,
            sum == total_by_moves(input@.subrange(0, i as int)),
        decreases input.len() - i,
    {
        let (opp, player) = input[i];
        assert(input@[i as int].0 < 3 && input@[i as int].1 < 3);
        let ghost prefix = input@.subrange(0, i as int + 1);
        assert(prefix.drop_last() == input@.subrange(0, i as int));
        proof {
            assert(rounds_wf(prefix));
            lemma_totals_bounded(prefix);
        }
        let player = Move::from_index(player);
        let opp = Move::from_index(opp);
        let score = get_score(&player, &get_outcome(&player, &opp));
        sum = sum + score as u64;
        i += 1;
    }
    assert(input@.subrange(0, input@.len() as int) == input@);
    sum
}

/// The score when the second column is the outcome to reach.
pub fn part2(input: &Vec<(u8, u8)>) -> (r: u64)
    requires
        rounds_wf(input@),
        9 * input@.len() <= u64::MAX,
    ensures
        r == total_by_outcomes(input@),
{
    let mut sum: u64 = 0;
    let mut i: usize = 0;
    while i < input.len()
        invariant
            i <= input@.len(),
            rounds_wf(input@),
            9 * input@.len() <= u64::MAX,
            sum == total_by_outcomes(input@.subrange(0, i as int)),
        decreases input.len() - i,
    {
        let (opp, out) = input[i];
        assert(input@[i as int].0 < 3 && input@[i as int].1 < 3);
        let ghost prefix = input@.subrange(0, i as int + 1);
        assert(prefix.drop_last() == input@.subrange(0, i as int));
        proof {
            assert(rounds_wf(prefix));
            lemma_totals_bounded(prefix);
        }
        let opp = Move::from_index(opp);
        let outcome = Outcome::from_index(out);
        let score = get_score(&find_winning_move(&opp, &outcome), &outcome);
        sum = sum + score as u64;
        i += 1;
    }
    assert(input@.subrange(0, input@.len() as int) == input@);
    sum
}

proof fn lemma_rounds_wf(lines: Seq<String>)
    requires
        rounds_of(lines) is Some,
    ensures
        rounds_wf(rounds_of(lines)->0),
        rounds_of(lines)->0.len() <= lines.len(),
    decreases lines.len(),
{
    if lines.len() > 0 {
        lemma_rounds_wf(lines.drop_last());
    }
}

/// Both scores of a strategy guide, or `Err` where a line with a space is not
/// a round, or where the totals could not be held in a `u64`.
pub fn solve(raw_input: &[String]) -> (r: Result<(u64, u64), ()>)
    ensures
        match rounds_of(raw_input@) {
            Some(rounds) => if 9 * rounds.len() <= u64::MAX {
                r == Ok::<(u64, u64), ()>(
                    (total_by_moves(rounds) as u64, total_by_outcomes(rounds) as u64),
                )
            } else {
                r is Err
            },
            None => r is Err,
        },
{
    let input = parse_input(raw_input)?;
    proof {
        lemma_rounds_wf(raw_input@);
    }
    if input.len() as u128 * 9 > u64::MAX as u128 {
        return Err(());
    }
    Ok((part1(&input), part2(&input)))
}

} // verus!
