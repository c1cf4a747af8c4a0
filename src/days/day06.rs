use vstd::prelude::*;
use vstd::multiset::Multiset;
use crate::text::line_bytes;

verus! {

broadcast use vstd::seq_lib::group_to_multiset_ensures;

/// No byte occurs twice in `w`.
pub open spec fn all_distinct(w: Seq<u8>) -> bool {
    forall|b: u8| #[trigger] w.to_multiset().count(b) <= 1
}

pub open spec fn min_len(n: int, len: int) -> int {
    if n < len {
        n
    } else {
        len
    }
}

/// The window of `n` bytes that ends before position `p`.
pub open spec fn window(s: Seq<u8>, n: int, p: int) -> Seq<u8> {
    s.subrange(p - n, p)
}

/// What `find_unique_n` returns: `n` where the first `n` bytes (all bytes, if
/// fewer) are distinct; else the least end `p > n` of a window of `n` distinct
/// bytes; else `None`.
pub open spec fn is_marker_result(s: Seq<u8>, n: int, r: Option<usize>) -> bool {
    if all_distinct(s.subrange(0, min_len(n, s.len() as int))) {
        r == Some(n as usize)
    } else {
        match r {
            Some(p) => n < p <= s.len() && all_distinct(window(s, n, p as int)) && forall|q: int|
                n < q < p ==> !all_distinct(#[trigger] window(s, n, q)),
            None => forall|q: int| n < q <= s.len() ==> !all_distinct(#[trigger] window(s, n, q)),
        }
    }
}

/// How often each byte occurs in a window, and how many bytes were added.
pub struct LetterCounter {
    pub counter: Vec<usize>,
    pub adds_performed: usize,
}

proof fn lemma_count_le_len(s: Seq<u8>, b: u8)
    ensures
        s.to_multiset().count(b) <= s.len(),
    decreases s.len(),
{
    if s.len() > 0 {
        lemma_count_le_len(s.drop_last(), b);
        assert(s == s.drop_last().push(s.last()));
    } else {
        assert(s.to_multiset() == Multiset::<u8>::empty());
    }
}

impl LetterCounter {
    pub open spec fn wf(&self) -> bool {
        self.counter@.len() == 256
    }

    /// The counts are those of the bytes of `w`.
    pub open spec fn counts(&self, w: Seq<u8>) -> bool {
        self.wf() && forall|b: u8| #[trigger] self.counter@[b as int] == w.to_multiset().count(b)
    }

    pub fn new() -> (r: Self)
        ensures
            r.counts(Seq::<u8>::empty()),
            r.adds_performed == 0,
    {
        let mut counter: Vec<usize> = Vec::new();
        let mut i: usize = 0;
        while i < 256
            invariant
                i <= 256,
                counter@.len() == i,
                forall|k: int| 0 <= k < i ==> counter@[k] == 0,
            decreases 256 - i,
        {
            counter.push(0);
            i += 1;
        }
        let r = LetterCounter { counter, adds_performed: 0 };
        assert(Seq::<u8>::empty().to_multiset() == Multiset::<u8>::empty());
        r
    }

    /// Counts one more `letter`.
    pub fn add(&mut self, letter: u8)
        requires
            old(self).wf(),
            old(self).counter@[letter as int] < usize::MAX,
            old(self).adds_performed < usize::MAX,
        ensures
            final(self).counter@ == old(self).counter@.update(
                letter as int,
                (old(self).counter@[letter as int] + 1) as usize,
            ),
            final(self).adds_performed == old(self).adds_performed + 1,
    {
        self.adds_performed += 1;
        let c = self.counter[letter as usize];
        self.counter.set(letter as usize, c + 1);
    }

    /// Counts one `letter` less, where there is one.
    pub fn remove(&mut self, letter: u8)
        requires
            old(self).wf(),
        ensures
            final(self).counter@ == (if old(self).counter@[letter as int] > 0 {
                old(self).counter@.update(letter as int, (old(self).counter@[letter as int] - 1) as usize)
            } else {
                old(self).counter@
            }),
            final(self).adds_performed == old(self).adds_performed,
    {
        let c = self.counter[letter as usize];
        if c > 0 {
            self.counter.set(letter as usize, c - 1);
        }
    }

    /// No byte is counted twice.
    pub fn is_valid(&self) -> (r: bool)
        requires
            self.wf(),
        ensures
            r == forall|b: u8| #[trigger] self.counter@[b as int] <= 1,
    {
        let mut i: usize = 0;
        while i < 256
            invariant
                i <= 256,
                self.wf(),
                forall|k: int| 0 <= k < i ==> self.counter@[k] <= 1,
            decreases 256 - i,
        {
            if self.counter[i] > 1 {
                assert(self.counter@[(i as u8) as int] > 1);
                return false;
            }
            i += 1;
        }
        true
    }
}

/// The end of the first run of `n` distinct bytes, counted from the start.
pub fn find_unique_n(input: &[u8], n: usize) -> (r: Option<usize>)
    ensures
        is_marker_result(input@, n as int, r),
{
    let s = Ghost(input@);
    let len = input.len();
    let first = if n < len { n } else { len };
    let mut counter = LetterCounter::new();
    let mut k: usize = 0;
    while k < first
        invariant
            k <= first,
            first == min_len(n as int, len as int),
            len == input@.len(),
            counter.counts(input@.subrange(0, k as int)),
            counter.adds_performed == k,
        decreases first - k,
    {
        proof {
            lemma_count_le_len(input@.subrange(0, k as int), input@[k as int]);
            assert(input@.subrange(0, k as int + 1) == input@.subrange(0, k as int).push(input@[k as int]));
        }
        counter.add(input[k]);
        k += 1;
    }
    let valid = counter.is_valid();
    proof {
        let w = input@.subrange(0, first as int);
        assert(valid == all_distinct(w)) by {
            if !valid {
                let b = choose|b: u8| !(#[trigger] counter.counter@[b as int] <= 1);
                assert(w.to_multiset().count(b) > 1);
            } else {
                assert forall|b: u8| #[trigger] w.to_multiset().count(b) <= 1 by {
                    assert(counter.counter@[b as int] <= 1);
                }
            }
        }
    }
    if valid {
        return Some(n);
    }
    if n > len {
        return None;
    }
    assert(window(input@, n as int, n as int) == input@.subrange(0, first as int));
    let mut i: usize = 0;
    while i + n < len
        invariant
            n <= len,
            len == input@.len(),
            counter.counts(window(input@, n as int, i + n)),
            counter.adds_performed == i + n,
            forall|q: int| n < q <= i + n ==> !all_distinct(#[trigger] window(input@, n as int, q)),
            !all_distinct(input@.subrange(0, min_len(n as int, len as int))),
        decreases len - i - n,
    {
        let ghost w = window(input@, n as int, i + n);
        let ghost w2 = window(input@, n as int, i + n + 1);
        proof {
            assert(w.remove(0) == input@.subrange(i + 1, i + n));
            assert(w2 == input@.subrange(i + 1, i + n).push(input@[i + n]));
            lemma_count_le_len(input@.subrange(i + 1, i + n), input@[i + n]);
        }
        counter.remove(input[i]);
        proof {
            assert(n > 0);
            assert(w[0] == input@[i as int]);
            assert(counter.counts(input@.subrange(i + 1, i + n)));
        }
        counter.add(input[i + n]);
        assert(counter.counts(w2));
        let valid = counter.is_valid();
        proof {
            assert(valid == all_distinct(w2)) by {
                if !valid {
                    let b = choose|b: u8| !(#[trigger] counter.counter@[b as int] <= 1);
                    assert(w2.to_multiset().count(b) > 1);
                } else {
                    assert forall|b: u8| #[trigger] w2.to_multiset().count(b) <= 1 by {
                        assert(counter.counter@[b as int] <= 1);
                    }
                }
            }
        }
        if valid {
            return Some(counter.adds_performed);
        }
        i += 1;
    }
    None
}

/// The end of the first start-of-packet marker.
pub fn part1(input: &[u8]) -> (r: Option<usize>)
    ensures
        is_marker_result(input@, 4, r),
{
    find_unique_n(input, 4)
}

/// The end of the first start-of-message marker.
pub fn part2(input: &[u8]) -> (r: Option<usize>)
    ensures
        is_marker_result(input@, 14, r),
{
    find_unique_n(input, 14)
}

/// The first line's bytes, or `Err` without lines.
pub fn parse_input(raw_input: &[String]) -> (r: Result<&[u8], ()>)
    ensures
        match r {
            Ok(b) => raw_input@.len() > 0 && b@ == line_bytes(raw_input@[0]),
            Err(_) => raw_input@.len() == 0,
        },
{
    if raw_input.len() == 0 {
        return Err(());
    }
    Ok(raw_input[0].as_str().as_bytes())
}

/// Both marker positions of the first line.
pub fn solve(raw_input: &[String]) -> (r: Result<(Option<usize>, Option<usize>), ()>)
    ensures
        match r {
            Ok((a, b)) => raw_input@.len() > 0 && is_marker_result(
                line_bytes(raw_input@[0]),
                4,
                a,
            ) && is_marker_result(line_bytes(raw_input@[0]), 14, b),
            Err(_) => raw_input@.len() == 0,
        },
{
    let input = parse_input(raw_input)?;
    Ok((part1(input), part2(input)))
}

} // verus!
