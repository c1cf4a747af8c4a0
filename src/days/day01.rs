use vstd::prelude::*;
use itertools::Itertools;
use crate::text::{line_bytes, parse_signed, signed_of};

verus! {

/// Sum of a list of calorie counts.
pub open spec fn group_sum(g: Seq<i32>) -> int
    decreases g.len(),
{
    if g.len() == 0 {
        0
    } else {
        group_sum(g.drop_last()) + g.last()
    }
}

/// Sum of a list of integers, first element first.
pub open spec fn sum_ints(s: Seq<int>) -> int
    decreases s.len(),
{
    if s.len() == 0 {
        0
    } else {
        s[0] + sum_ints(s.drop_first())
    }
}

pub open spec fn as_ints(s: Seq<i128>) -> Seq<int> {
    s.map_values(|x: i128| x as int)
}

/// The calories that each elf carries.
pub open spec fn elf_totals(groups: Seq<Seq<i32>>) -> Seq<int> {
    groups.map_values(|g: Seq<i32>| group_sum(g))
}

pub open spec fn in_i128(v: int) -> bool {
    i128::MIN <= v <= i128::MAX
}

/// How many of the totals are added up: `n`, or all of them where there are fewer.
pub open spec fn top_count(totals: Seq<int>, n: int) -> int {
    if n < totals.len() {
        n
    } else {
        totals.len() as int
    }
}

/// The sum of the `n` largest totals (of all of them, where there are fewer).
pub open spec fn top_n_sum(totals: Seq<int>, n: int) -> int {
    let s = totals.sort();
    sum_ints(s.subrange(s.len() - top_count(totals, n), s.len() as int))
}

/// Every running sum of the `n` largest totals, added largest first, fits in
/// an `i128`.
pub open spec fn top_sums_fit(totals: Seq<int>, n: int) -> bool {
    let s = totals.sort();
    forall|j: int|
        s.len() - top_count(totals, n) <= j <= s.len() ==> in_i128(
            #[trigger] sum_ints(s.subrange(j, s.len() as int)),
        )
}

/// What `get_top_n_calories` returns: the sum of the `n` largest loads, or
/// `None` where adding them up, largest first, leaves an `i128`.
pub open spec fn is_top_n_result(groups: Seq<Seq<i32>>, n: int, r: Option<i128>) -> bool {
    match r {
        Some(v) => top_sums_fit(elf_totals(groups), n) && v == top_n_sum(elf_totals(groups), n),
        None => !top_sums_fit(elf_totals(groups), n),
    }
}

/// Relies on itertools' `sorted`: the same values, in ascending order.
#[verifier::external_body]
fn sorted_values(v: Vec<i128>) -> (r: Vec<i128>)
    ensures
        as_ints(r@) == as_ints(v@).sort(),
{
    v.into_iter().sorted().collect()
}

/// A load of `n` counts lies within `n` times the range of an `i32`.
proof fn lemma_group_sum_bounds(g: Seq<i32>)
    ensures
        -(g.len() * 0x8000_0000) <= group_sum(g) <= g.len() * 0x8000_0000,
    decreases g.len(),
{
    if g.len() > 0 {
        lemma_group_sum_bounds(g.drop_last());
    }
}

/// The calories of one elf.
fn group_total(g: &Vec<i32>) -> (r: i128)
    ensures
        r == group_sum(g@),
{
    let mut acc: i128 = 0;
    let mut i: usize = 0;
    while i < g.len()
        invariant
            i <= g@.len(),
            acc == group_sum(g@.subrange(0, i as int)),
        decreases g.len() - i,
    {
        let ghost next = g@.subrange(0, i as int + 1);
        assert(next.drop_last() == g@.subrange(0, i as int));
        proof {
            lemma_group_sum_bounds(next);
            assert(usize::MAX <= 0xffff_ffff_ffff_ffff);
            assert((i + 1) * 0x8000_0000 <= 0x1_0000_0000_0000_0000 * 0x8000_0000) by (nonlinear_arith)
                requires
                    i + 1 <= 0x1_0000_0000_0000_0000,
            ;
        }
        acc = acc + g[i] as i128;
        i += 1;
    }
    assert(g@.subrange(0, g@.len() as int) == g@);
    acc
}

/// The calories carried by the `n` best-stocked elves together.
pub fn get_top_n_calories(input: &Vec<Vec<i32>>, n: usize) -> (r: Option<i128>)
    ensures
        is_top_n_result(input@.map_values(|g: Vec<i32>| g@), n as int, r),
{
    let ghost groups = input@.map_values(|g: Vec<i32>| g@);
    let mut totals: Vec<i128> = Vec::new();
    let mut i: usize = 0;
    while i < input.len()
        invariant
            i <= input@.len(),
            groups == input@.map_values(|g: Vec<i32>| g@),
            totals@.len() == i,
            forall|k: int| 0 <= k < i ==> totals@[k] == group_sum(#[trigger] groups[k]),
        decreases input.len() - i,
    {
        assert(groups[i as int] == input@[i as int]@);
        let t = group_total(&input[i]);
        totals.push(t);
        assert(totals@[i as int] == group_sum(groups[i as int]));
        i += 1;
    }
    assert(as_ints(totals@) == elf_totals(groups));
    let sorted = sorted_values(totals);
    let ghost s = elf_totals(groups).sort();
    let len = sorted.len();
    let k: usize = if n < len { n } else { len };
    proof {
        broadcast use vstd::seq_lib::group_to_multiset_ensures;
        elf_totals(groups).lemma_sort_ensures();
        assert(s.to_multiset().len() == elf_totals(groups).to_multiset().len());
        assert(s.len() == len) by {
            assert(as_ints(sorted@).len() == sorted@.len());
        }
        assert(sum_ints(s.subrange(len as int, len as int)) == 0);
    }
    let mut acc: i128 = 0;
    let mut j: usize = len;
    while j > len - k
        invariant
            len == sorted@.len(),
            k <= len,
            k == top_count(elf_totals(groups), n as int),
            len - k <= j <= len,
            s == as_ints(sorted@),
            s == elf_totals(groups).sort(),
            s.len() == len,
            groups == input@.map_values(|g: Vec<i32>| g@),
            acc == sum_ints(s.subrange(j as int, len as int)),
            forall|x: int| j <= x <= len ==> in_i128(#[trigger] sum_ints(s.subrange(x, len as int))),
        decreases j,
    {
        let v = sorted[j - 1];
        assert(s[j - 1] == v);
        assert(s.subrange(j - 1, len as int).drop_first() == s.subrange(j as int, len as int));
        assert(s.subrange(j - 1, len as int)[0] == v);
        assert(sum_ints(s.subrange(j - 1, len as int)) == v + acc);
        if (v > 0 && acc > i128::MAX - v) || (v < 0 && acc < i128::MIN - v) {
            assert(!in_i128(sum_ints(s.subrange(j - 1, len as int))));
            assert(!top_sums_fit(elf_totals(groups), n as int));
            return None;
        }
        acc = acc + v;
        j -= 1;
    }
    assert(acc == top_n_sum(elf_totals(groups), n as int));
    Some(acc)
}

/// The largest load carried by one elf.
pub fn part1(input: &Vec<Vec<i32>>) -> (r: Option<i128>)
    ensures
        is_top_n_result(input@.map_values(|g: Vec<i32>| g@), 1, r),
{
    get_top_n_calories(input, 1)
}

/// The load carried by the three best-stocked elves.
pub fn part2(input: &Vec<Vec<i32>>) -> (r: Option<i128>)
    ensures
        is_top_n_result(input@.map_values(|g: Vec<i32>| g@), 3, r),
{
    get_top_n_calories(input, 3)
}

/// Lines split into groups at every empty line; each other line is an `i32`,
/// with an optional sign.
pub open spec fn groups_of(lines: Seq<String>) -> Option<Seq<Seq<i32>>>
    decreases lines.len(),
{
    if lines.len() == 0 {
        Some(seq![seq![]])
    } else {
        match groups_of(lines.drop_last()) {
            None => None,
            Some(gs) => {
                let l = line_bytes(lines.last());
                if l.len() == 0 {
                    Some(gs.push(seq![]))
                } else {
                    match signed_of(l) {
                        Some(v) => Some(gs.update(gs.len() - 1, gs.last().push(v))),
                        None => None,
                    }
                }
            },
        }
    }
}

proof fn lemma_groups_fail_extends(lines: Seq<String>, n: int)
    requires
        0 <= n <= lines.len(),
        groups_of(lines.subrange(0, n)) is None,
    ensures
        groups_of(lines) is None,
    decreases lines.len() - n,
{
    if n < lines.len() {
        assert(lines.subrange(0, n + 1).drop_last() == lines.subrange(0, n));
        lemma_groups_fail_extends(lines, n + 1);
    } else {
        assert(lines.subrange(0, n) == lines);
    }
}

/// The groups of numbers between empty lines, or `Err` where a line is
/// neither empty nor a number.
pub fn parse_input(raw_input: &[String]) -> (r: Result<Vec<Vec<i32>>, ()>)
    ensures
        match groups_of(raw_input@) {
            Some(gs) => r is Ok && r->Ok_0@.map_values(|g: Vec<i32>| g@) == gs,
            None => r is Err,
        },
{
    let mut done: Vec<Vec<i32>> = Vec::new();
    let mut current: Vec<i32> = Vec::new();
    let mut i: usize = 0;
    while i < raw_input.len()
        invariant
            i <= raw_input@.len(),
            groups_of(raw_input@.subrange(0, i as int)) == Some(
                done@.map_values(|g: Vec<i32>| g@).push(current@),
            ),
        decreases raw_input.len() - i,
    {
        let bytes = raw_input[i].as_str().as_bytes();
        let ghost prefix = raw_input@.subrange(0, i as int + 1);
        let ghost before = done@.map_values(|g: Vec<i32>| g@).push(current@);
        assert(prefix.drop_last() == raw_input@.subrange(0, i as int));
        assert(bytes@ == line_bytes(prefix.last()));
        if bytes.len() == 0 {
            let finished = current;
            done.push(finished);
            current = Vec::new();
            assert(done@.map_values(|g: Vec<i32>| g@).push(current@) == before.push(seq![]));
        } else {
            match parse_signed(bytes) {
                Some(v) => {
                    current.push(v);
                    assert(done@.map_values(|g: Vec<i32>| g@).push(current@) == before.update(
                        before.len() - 1,
                        before.last().push(v),
                    ));
                },
                None => {
                    proof {
                        lemma_groups_fail_extends(raw_input@, i as int + 1);
                    }
                    return Err(());
                },
            }
        }
        i += 1;
    }
    assert(raw_input@.subrange(0, raw_input@.len() as int) == raw_input@);
    done.push(current);
    Ok(done)
}

/// The largest load and the load of the top three, or `Err` where a line is
/// neither empty nor a number.
pub fn solve(raw_input: &[String]) -> (r: Result<(Option<i128>, Option<i128>), ()>)
    ensures
        match groups_of(raw_input@) {
            Some(gs) => r is Ok && is_top_n_result(gs, 1, r->Ok_0.0) && is_top_n_result(
                gs,
                3,
                r->Ok_0.1,
            ),
            None => r is Err,
        },
{
    let input = parse_input(raw_input)?;
    Ok((part1(&input), part2(&input)))
}

} // verus!
