use vstd::prelude::*;
use crate::text::line_bytes;

verus! {

/// The byte `a`.
pub const LOWER_A: u8 = 97;

/// The byte `z`.
pub const LOWER_Z: u8 = 122;

/// The byte `A`.
pub const UPPER_A: u8 = 65;

/// The byte `Z`.
pub const UPPER_Z: u8 = 90;

/// The number of item types: `a`..`z` and `A`..`Z`.
pub const KINDS: usize = 52;

pub open spec fn is_lower(b: u8) -> bool {
    LOWER_A <= b <= LOWER_Z
}

pub open spec fn is_item(b: u8) -> bool {
    is_lower(b) || (UPPER_A <= b <= UPPER_Z)
}

/// `a`..`z` rank 1..26, `A`..`Z` rank 27..52.
pub open spec fn rank_of(b: u8) -> int {
    if is_lower(b) {
        b - LOWER_A + 1
    } else {
        b - UPPER_A + 27
    }
}

/// An item type: one ASCII letter.
#[derive(Clone, Copy, Debug, PartialEq, Eq, Structural)]
pub struct Itemtype(pub u8);

impl Itemtype {
    /// The item's priority.
    pub fn get_rank(&self) -> (r: u8)
        requires
            is_item(self.0),
        ensures
            r == rank_of(self.0),
    {
        if LOWER_A <= self.0 && self.0 <= LOWER_Z {
            1 + self.0 - LOWER_A
        } else {
            27 + self.0 - UPPER_A
        }
    }
}

/// Some item of `s` has index `k` (rank `k + 1`).
pub open spec fn has_index(s: Seq<u8>, k: int) -> bool {
    exists|i: int| 0 <= i < s.len() && #[trigger] rank_of(s[i]) == k + 1
}

/// The letter of rank `k + 1`.
pub open spec fn letter_of(k: int) -> u8 {
    if k < 26 {
        (LOWER_A + k) as u8
    } else {
        (UPPER_A + k - 26) as u8
    }
}

/// Counts of each item type, indexed by rank minus one.
pub struct ItemtypeCounter {
    pub data: Vec<u32>,
}

impl ItemtypeCounter {
    pub open spec fn wf(&self) -> bool {
        self.data@.len() == KINDS
    }

    /// The non-zero counts are exactly the item types of `s`.
    pub open spec fn holds(&self, s: Seq<u8>) -> bool {
        self.wf() && forall|k: int| 0 <= k < KINDS ==> (#[trigger] self.data@[k] > 0 <==> has_index(s, k))
    }

    pub fn new() -> (r: Self)
        ensures
            r.holds(seq![]),
    {
        let mut data: Vec<u32> = Vec::new();
        let mut i: usize = 0;
        while i < KINDS
            invariant
                i <= KINDS,
                data@.len() == i,
                forall|k: int| 0 <= k < i ==> data@[k] == 0,
            decreases KINDS - i,
        {
            data.push(0);
            i += 1;
        }
        ItemtypeCounter { data }
    }

    /// The item of index `i`.
    pub fn get_char(i: usize) -> (r: Itemtype)
        requires
            i < KINDS,
        ensures
            r.0 == letter_of(i as int),
            is_item(r.0),
            rank_of(r.0) == i + 1,
    {
        if i > 25 {
            Itemtype(UPPER_A + (i - 26) as u8)
        } else {
            Itemtype(LOWER_A + i as u8)
        }
    }

    /// The index of an item.
    pub fn get_idx(c: &Itemtype) -> (r: usize)
        requires
            is_item(c.0),
        ensures
            r == rank_of(c.0) - 1,
            r < KINDS,
    {
        (c.get_rank() - 1) as usize
    }

    /// Counts one more `c`; a count that has reached the top stays there.
    pub fn add(&mut self, c: &Itemtype)
        requires
            old(self).wf(),
            is_item(c.0),
        ensures
            final(self).wf(),
            forall|k: int|
                0 <= k < KINDS ==> (#[trigger] final(self).data@[k] > 0 <==> (old(self).data@[k] > 0
                    || k == rank_of(c.0) - 1)),
    {
        let idx = ItemtypeCounter::get_idx(c);
        let v = self.data[idx];
        if v < u32::MAX {
            self.data.set(idx, v + 1);
        }
    }

    /// Counts every item of `items`.
    pub fn add_all(&mut self, items: &Vec<Itemtype>)
        requires
            old(self).wf(),
            forall|i: int| 0 <= i < items@.len() ==> is_item(#[trigger] items@[i].0),
        ensures
            forall|s: Seq<u8>| old(self).holds(s) ==> final(self).holds(s + items_bytes(items@)),
    {
        let ghost start = *self;
        let mut i: usize = 0;
        while i < items.len()
            invariant
                i <= items@.len(),
                self.wf(),
                forall|j: int| 0 <= j < items@.len() ==> is_item(#[trigger] items@[j].0),
                forall|k: int|
                    0 <= k < KINDS ==> (#[trigger] self.data@[k] > 0 <==> (start.data@[k] > 0
                        || has_index(items_bytes(items@.subrange(0, i as int)), k))),
            decreases items.len() - i,
        {
            let ghost before = items_bytes(items@.subrange(0, i as int));
            let ghost after = items_bytes(items@.subrange(0, i as int + 1));
            assert(after == before.push(items@[i as int].0));
            self.add(&items[i]);
            proof {
                assert forall|k: int| 0 <= k < KINDS implies (#[trigger] self.data@[k] > 0 <==> (
                start.data@[k] > 0 || has_index(after, k))) by {
                    if has_index(after, k) && !has_index(before, k) {
                        let j = choose|j: int| 0 <= j < after.len() && #[trigger] rank_of(after[j]) == k + 1;
                        if j < before.len() {
                            assert(before[j] == after[j]);
                        }
                    }
                    if has_index(before, k) {
                        let j = choose|j: int| 0 <= j < before.len() && #[trigger] rank_of(before[j]) == k + 1;
                        assert(after[j] == before[j]);
                    }
                    if k == rank_of(items@[i as int].0) - 1 {
                        assert(rank_of(after[before.len() as int]) == k + 1);
                    }
                }
            }
            i += 1;
        }
        proof {
            assert(items@.subrange(0, items@.len() as int) == items@);
            assert forall|s: Seq<u8>| start.holds(s) implies self.holds(s + items_bytes(items@)) by {
                let t = s + items_bytes(items@);
                assert forall|k: int| 0 <= k < KINDS implies (#[trigger] self.data@[k] > 0
                    <==> has_index(t, k)) by {
                    if has_index(s, k) {
                        let j = choose|j: int| 0 <= j < s.len() && #[trigger] rank_of(s[j]) == k + 1;
                        assert(t[j] == s[j]);
                    }
                    if has_index(items_bytes(items@), k) {
                        let j = choose|j: int|
                            0 <= j < items_bytes(items@).len() && #[trigger] rank_of(
                                items_bytes(items@)[j],
                            ) == k + 1;
                        assert(t[s.len() + j] == items_bytes(items@)[j]);
                    }
                    if has_index(t, k) {
                        let j = choose|j: int| 0 <= j < t.len() && #[trigger] rank_of(t[j]) == k + 1;
                        if j < s.len() {
                            assert(t[j] == s[j]);
                        } else {
                            assert(t[j] == items_bytes(items@)[j - s.len()]);
                        }
                    }
                }
            }
        }
    }

    /// The item of least rank counted in both.
    pub fn find_first_same(&self, other: &ItemtypeCounter) -> (r: Option<Itemtype>)
        requires
            self.wf(),
            other.wf(),
        ensures
            match r {
                Some(c) => is_item(c.0) && self.data@[rank_of(c.0) - 1] > 0 && other.data@[rank_of(c.0) - 1] > 0
                    && forall|k: int| 0 <= k < rank_of(c.0) - 1 ==> !(#[trigger] self.data@[k] > 0 && other.data@[k] > 0),
                None => forall|k: int| 0 <= k < KINDS ==> !(#[trigger] self.data@[k] > 0 && other.data@[k] > 0),
            },
    {
        let mut i: usize = 0;
        while i < KINDS
            invariant
                i <= KINDS,
                self.wf(),
                other.wf(),
                forall|k: int| 0 <= k < i ==> !(#[trigger] self.data@[k] > 0 && other.data@[k] > 0),
            decreases KINDS - i,
        {
            if self.data[i] > 0 && other.data[i] > 0 {
                return Some(ItemtypeCounter::get_char(i));
            }
            i += 1;
        }
        None
    }

    /// The item of least rank counted in all three.
    pub fn find_first_same3(&self, other1: &ItemtypeCounter, other2: &ItemtypeCounter) -> (r: Option<Itemtype>)
        requires
            self.wf(),
            other1.wf(),
            other2.wf(),
        ensures
            match r {
                Some(c) => is_item(c.0) && self.data@[rank_of(c.0) - 1] > 0 && other1.data@[rank_of(c.0) - 1] > 0
                    && other2.data@[rank_of(c.0) - 1] > 0
                    && forall|k: int| 0 <= k < rank_of(c.0) - 1 ==> !(#[trigger] self.data@[k] > 0 && other1.data@[k] > 0 && other2.data@[k] > 0),
                None => forall|k: int| 0 <= k < KINDS ==> !(#[trigger] self.data@[k] > 0 && other1.data@[k] > 0 && other2.data@[k] > 0),
            },
    {
        let mut i: usize = 0;
        while i < KINDS
            invariant
                i <= KINDS,
                self.wf(),
                other1.wf(),
                other2.wf(),
                forall|k: int| 0 <= k < i ==> !(#[trigger] self.data@[k] > 0 && other1.data@[k] > 0 && other2.data@[k] > 0),
            decreases KINDS - i,
        {
            if self.data[i] > 0 && other1.data[i] > 0 && other2.data[i] > 0 {
                return Some(ItemtypeCounter::get_char(i));
            }
            i += 1;
        }
        None
    }
}

pub open spec fn items_bytes(items: Seq<Itemtype>) -> Seq<u8> {
    items.map_values(|c: Itemtype| c.0)
}

/// The least rank above `k` of an item found in both `a` and `b`, or 0.
pub open spec fn least_shared2(a: Seq<u8>, b: Seq<u8>, k: int) -> int
    decreases KINDS - k,
{
    if k >= KINDS || k < 0 {
        0
    } else if has_index(a, k) && has_index(b, k) {
        k + 1
    } else {
        least_shared2(a, b, k + 1)
    }
}

/// The least rank above `k` of an item found in `a`, `b` and `c`, or 0.
pub open spec fn least_shared3(a: Seq<u8>, b: Seq<u8>, c: Seq<u8>, k: int) -> int
    decreases KINDS - k,
{
    if k >= KINDS || k < 0 {
        0
    } else if has_index(a, k) && has_index(b, k) && has_index(c, k) {
        k + 1
    } else {
        least_shared3(a, b, c, k + 1)
    }
}

pub open spec fn all_items(s: Seq<u8>) -> bool {
    forall|i: int| 0 <= i < s.len() ==> #[trigger] is_item(s[i])
}

/// A rucksack: its two compartments.
pub struct Rucksack {
    pub compartments: (Vec<Itemtype>, Vec<Itemtype>),
}

impl Rucksack {
    pub open spec fn first(&self) -> Seq<u8> {
        items_bytes(self.compartments.0@)
    }

    pub open spec fn second(&self) -> Seq<u8> {
        items_bytes(self.compartments.1@)
    }

    pub open spec fn all(&self) -> Seq<u8> {
        self.first() + self.second()
    }

    pub open spec fn wf(&self) -> bool {
        all_items(self.first()) && all_items(self.second())
    }

    /// The item found in both compartments, least rank first.
    pub fn get_error_item(&self) -> (r: Option<Itemtype>)
        requires
            self.wf(),
        ensures
            match r {
                Some(c) => is_item(c.0) && rank_of(c.0) == least_shared2(self.first(), self.second(), 0),
                None => least_shared2(self.first(), self.second(), 0) == 0,
            },
    {
        let mut counter1 = ItemtypeCounter::new();
        let mut counter2 = ItemtypeCounter::new();
        proof {
            lemma_items_wf(self.compartments.0@);
            lemma_items_wf(self.compartments.1@);
        }
        counter1.add_all(&self.compartments.0);
        counter2.add_all(&self.compartments.1);
        assert(seq![] + self.first() == self.first());
        assert(seq![] + self.second() == self.second());
        let r = counter1.find_first_same(&counter2);
        proof {
            let (a, b) = (self.first(), self.second());
            let m = match r {
                Some(c) => rank_of(c.0) - 1,
                None => KINDS as int,
            };
            assert forall|j: int| 0 <= j < m implies !(#[trigger] has_index(a, j) && has_index(b, j)) by {
                assert(!(counter1.data@[j] > 0 && counter2.data@[j] > 0));
            }
            lemma_skip2(a, b, 0, m);
            if m < KINDS {
                assert(counter1.data@[m] > 0 && counter2.data@[m] > 0);
            }
        }
        r
    }

    /// The item carried by all three rucksacks of a group, least rank first.
    pub fn find_badge(group: &[Rucksack]) -> (r: Option<Itemtype>)
        requires
            group@.len() == 3,
            forall|i: int| 0 <= i < 3 ==> (#[trigger] group@[i]).wf(),
        ensures
            match r {
                Some(c) => is_item(c.0) && rank_of(c.0) == least_shared3(
                    group@[0].all(),
                    group@[1].all(),
                    group@[2].all(),
                    0,
                ),
                None => least_shared3(group@[0].all(), group@[1].all(), group@[2].all(), 0) == 0,
            },
    {
        let c1 = group[0].counter();
        let c2 = group[1].counter();
        let c3 = group[2].counter();
        let r = c1.find_first_same3(&c2, &c3);
        proof {
            let (a, b, c) = (group@[0].all(), group@[1].all(), group@[2].all());
            let m = match r {
                Some(it) => rank_of(it.0) - 1,
                None => KINDS as int,
            };
            assert forall|j: int| 0 <= j < m implies !(#[trigger] has_index(a, j) && has_index(b, j)
                && has_index(c, j)) by {
                assert(!(c1.data@[j] > 0 && c2.data@[j] > 0 && c3.data@[j] > 0));
            }
            lemma_skip3(a, b, c, 0, m);
            if m < KINDS {
                assert(c1.data@[m] > 0 && c2.data@[m] > 0 && c3.data@[m] > 0);
            }
        }
        r
    }

    /// A counter holding every item of the rucksack.
    pub fn counter(&self) -> (r: ItemtypeCounter)
        requires
            self.wf(),
        ensures
            r.holds(self.all()),
    {
        let mut c = ItemtypeCounter::new();
        proof {
            lemma_items_wf(self.compartments.0@);
            lemma_items_wf(self.compartments.1@);
        }
        c.add_all(&self.compartments.0);
        assert(seq![] + self.first() == self.first());
        c.add_all(&self.compartments.1);
        c
    }

    /// Splits a line of letters into two halves; `Err` where a byte is not a
    /// letter.
    pub fn from_bytes(s: &[u8]) -> (r: Result<Rucksack, ()>)
        ensures
            match r {
                Ok(sack) => all_items(s@) && sack.wf() && sack.first() == s@.subrange(0, s@.len() as int / 2)
                    && sack.second() == s@.subrange(s@.len() as int / 2, s@.len() as int),
                Err(_) => !all_items(s@),
            },
    {
        let half = s.len() / 2;
        let mut first: Vec<Itemtype> = Vec::new();
        let mut second: Vec<Itemtype> = Vec::new();
        let mut i: usize = 0;
        while i < s.len()
            invariant
                i <= s@.len(),
                half == s@.len() / 2,
                all_items(s@.subrange(0, i as int)),
                i <= half ==> items_bytes(first@) == s@.subrange(0, i as int) && second@.len() == 0,
                i > half ==> items_bytes(first@) == s@.subrange(0, half as int)
                    && items_bytes(second@) == s@.subrange(half as int, i as int),
            decreases s.len() - i,
        {
            let b = s[i];
            if !((LOWER_A <= b && b <= LOWER_Z) || (UPPER_A <= b && b <= UPPER_Z)) {
                assert(!is_item(s@[i as int]));
                return Err(());
            }
            if i < half {
                first.push(Itemtype(b));
                assert(items_bytes(first@) == s@.subrange(0, i as int + 1));
            } else {
                second.push(Itemtype(b));
                assert(items_bytes(second@) == s@.subrange(half as int, i as int + 1));
            }
            assert(s@.subrange(0, i as int + 1)[i as int] == b);
            assert forall|j: int| 0 <= j < i + 1 implies #[trigger] is_item(s@.subrange(0, i as int + 1)[j]) by {
                if j < i {
                    assert(s@.subrange(0, i as int + 1)[j] == s@.subrange(0, i as int)[j]);
                }
            }
            i += 1;
        }
        assert(s@.subrange(0, s@.len() as int) == s@);
        let sack = Rucksack { compartments: (first, second) };
        proof {
            if s@.len() == half {
                assert(s@.subrange(half as int, half as int) == Seq::<u8>::empty());
                assert(items_bytes(second@) == Seq::<u8>::empty());
            }
            assert forall|j: int| 0 <= j < sack.first().len() implies #[trigger] is_item(sack.first()[j]) by {
                assert(sack.first()[j] == s@[j]);
            }
            assert forall|j: int| 0 <= j < sack.second().len() implies #[trigger] is_item(sack.second()[j]) by {
                assert(sack.second()[j] == s@[half + j]);
            }
        }
        Ok(sack)
    }
}

proof fn lemma_items_wf(items: Seq<Itemtype>)
    requires
        all_items(items_bytes(items)),
    ensures
        forall|i: int| 0 <= i < items.len() ==> is_item(#[trigger] items[i].0),
{
    assert forall|i: int| 0 <= i < items.len() implies is_item(#[trigger] items[i].0) by {
        assert(items_bytes(items)[i] == items[i].0);
    }
}

/// Ranks with no shared item can be skipped.
proof fn lemma_skip2(a: Seq<u8>, b: Seq<u8>, k: int, m: int)
    requires
        0 <= k <= m <= KINDS,
        forall|j: int| k <= j < m ==> !(#[trigger] has_index(a, j) && has_index(b, j)),
    ensures
        least_shared2(a, b, k) == least_shared2(a, b, m),
    decreases m - k,
{
    if k < m {
        lemma_skip2(a, b, k + 1, m);
    }
}

/// Ranks with no item shared by all three can be skipped.
proof fn lemma_skip3(a: Seq<u8>, b: Seq<u8>, c: Seq<u8>, k: int, m: int)
    requires
        0 <= k <= m <= KINDS,
        forall|j: int| k <= j < m ==> !(#[trigger] has_index(a, j) && has_index(b, j) && has_index(c, j)),
    ensures
        least_shared3(a, b, c, k) == least_shared3(a, b, c, m),
    decreases m - k,
{
    if k < m {
        lemma_skip3(a, b, c, k + 1, m);
    }
}

proof fn lemma_least_bounds(a: Seq<u8>, b: Seq<u8>, c: Seq<u8>, k: int)
    ensures
        0 <= least_shared2(a, b, k) <= KINDS,
        0 <= least_shared3(a, b, c, k) <= KINDS,
    decreases KINDS - k,
{
    if 0 <= k < KINDS {
        lemma_least_bounds(a, b, c, k + 1);
    }
}

/// The summed ranks of the items found in both compartments.
pub open spec fn error_total(sacks: Seq<Rucksack>) -> int
    decreases sacks.len(),
{
    if sacks.len() == 0 {
        0
    } else {
        error_total(sacks.drop_last()) + least_shared2(sacks.last().first(), sacks.last().second(), 0)
    }
}

/// The summed ranks of the badges of consecutive groups of three.
pub open spec fn badge_total(sacks: Seq<Rucksack>) -> int
    decreases sacks.len(),
{
    if sacks.len() < 3 {
        0
    } else {
        let n = sacks.len() as int;
        badge_total(sacks.subrange(0, n - 3)) + least_shared3(
            sacks[n - 3].all(),
            sacks[n - 2].all(),
            sacks[n - 1].all(),
            0,
        )
    }
}

pub open spec fn sacks_wf(sacks: Seq<Rucksack>) -> bool {
    forall|i: int| 0 <= i < sacks.len() ==> (#[trigger] sacks[i]).wf()
}

proof fn lemma_error_total_bounds(sacks: Seq<Rucksack>)
    ensures
        0 <= error_total(sacks) <= 52 * sacks.len(),
    decreases sacks.len(),
{
    if sacks.len() > 0 {
        lemma_error_total_bounds(sacks.drop_last());
        lemma_least_bounds(sacks.last().first(), sacks.last().second(), sacks.last().second(), 0);
    }
}

proof fn lemma_badge_total_bounds(sacks: Seq<Rucksack>)
    ensures
        0 <= badge_total(sacks) <= 52 * sacks.len(),
    decreases sacks.len(),
{
    if sacks.len() >= 3 {
        let n = sacks.len() as int;
        lemma_badge_total_bounds(sacks.subrange(0, n - 3));
        lemma_least_bounds(sacks[n - 3].all(), sacks[n - 2].all(), sacks[n - 1].all(), 0);
    }
}

/// The summed ranks of the items packed in both compartments.
pub fn part1(input: &Vec<Rucksack>) -> (r: u64)
    requires
        sacks_wf(input@),
        52 * input@.len() <= u64::MAX,
    ensures
        r == error_total(input@),
{
    let mut sum: u64 = 0;
    let mut i: usize = 0;
    while i < input.len()
        invariant
            i <= input@.len(),
            sacks_wf(input@),
            52 * input@.len() <= u64::MAX,
            sum == error_total(input@.subrange(0, i as int)),
        decreases input.len() - i,
    {
        let ghost prefix = input@.subrange(0, i as int + 1);
        assert(prefix.drop_last() == input@.subrange(0, i as int));
        proof {
            lemma_error_total_bounds(prefix);
        }
        assert(input@[i as int].wf());
        match input[i].get_error_item() {
            Some(c) => {
                sum = sum + c.get_rank() as u64;
            },
            None => {},
        }
        i += 1;
    }
    assert(input@.subrange(0, input@.len() as int) == input@);
    sum
}

/// The summed ranks of the badges of each group of three.
pub fn part2(input: &Vec<Rucksack>) -> (r: u64)
    requires
        sacks_wf(input@),
        input@.len() % 3 == 0,
        52 * input@.len() <= u64::MAX,
    ensures
        r == badge_total(input@),
{
    let mut sum: u64 = 0;
    let mut i: usize = 0;
    while i < input.len()
        invariant
            i <= input@.len(),
            i % 3 == 0,
            input@.len() % 3 == 0,
            sacks_wf(input@),
            52 * input@.len() <= u64::MAX,
            sum == badge_total(input@.subrange(0, i as int)),
        decreases input.len() - i,
    {
        let ghost prefix = input@.subrange(0, i as int + 3);
        assert(prefix.subrange(0, i as int) == input@.subrange(0, i as int));
        proof {
            lemma_badge_total_bounds(prefix);
        }
        let group = &input.as_slice()[i..i + 3];
        assert(group@ == input@.subrange(i as int, i as int + 3));
        assert(group@[0] == prefix[i as int] && group@[1] == prefix[i + 1] && group@[2] == prefix[i + 2]);
        match Rucksack::find_badge(group) {
            Some(c) => {
                sum = sum + c.get_rank() as u64;
            },
            None => {},
        }
        i += 3;
    }
    assert(input@.subrange(0, input@.len() as int) == input@);
    sum
}

/// The two halves of a line.
pub open spec fn halves_of(l: Seq<u8>) -> (Seq<u8>, Seq<u8>) {
    (l.subrange(0, l.len() as int / 2), l.subrange(l.len() as int / 2, l.len() as int))
}

/// `sacks` are the rucksacks that `lines` spell, one per line.
pub open spec fn sacks_of(lines: Seq<String>, sacks: Seq<Rucksack>) -> bool {
    &&& sacks.len() == lines.len()
    &&& forall|i: int|
        0 <= i < lines.len() ==> (#[trigger] sacks[i]).wf() && sacks[i].first() == halves_of(
            line_bytes(lines[i]),
        ).0 && sacks[i].second() == halves_of(line_bytes(lines[i])).1
}

/// One rucksack per line, or `Err` where a line holds a byte that is not a
/// letter.
pub fn parse_input(raw_input: &[String]) -> (r: Result<Vec<Rucksack>, ()>)
    ensures
        match r {
            Ok(v) => sacks_of(raw_input@, v@),
            Err(_) => exists|i: int| 0 <= i < raw_input@.len() && !all_items(#[trigger] line_bytes(raw_input@[i])),
        },
{
    let mut res: Vec<Rucksack> = Vec::new();
    let mut i: usize = 0;
    while i < raw_input.len()
        invariant
            i <= raw_input@.len(),
            sacks_of(raw_input@.subrange(0, i as int), res@),
        decreases raw_input.len() - i,
    {
        let bytes = raw_input[i].as_str().as_bytes();
        assert(bytes@ == line_bytes(raw_input@[i as int]));
        match Rucksack::from_bytes(bytes) {
            Ok(sack) => {
                res.push(sack);
                assert forall|j: int| 0 <= j < i + 1 implies (#[trigger] res@[j]).wf() && res@[j].first()
                    == halves_of(line_bytes(raw_input@.subrange(0, i as int + 1)[j])).0 && res@[j].second()
                    == halves_of(line_bytes(raw_input@.subrange(0, i as int + 1)[j])).1 by {
                    assert(raw_input@.subrange(0, i as int + 1)[j] == raw_input@[j]);
                    if j < i {
                        assert(raw_input@.subrange(0, i as int)[j] == raw_input@[j]);
                    }
                }
            },
            Err(_) => {
                return Err(());
            },
        }
        i += 1;
    }
    assert(raw_input@.subrange(0, raw_input@.len() as int) == raw_input@);
    Ok(res)
}

/// The summed ranks of the items found in both halves of each line.
pub open spec fn line_error_total(lines: Seq<String>) -> int
    decreases lines.len(),
{
    if lines.len() == 0 {
        0
    } else {
        let h = halves_of(line_bytes(lines.last()));
        line_error_total(lines.drop_last()) + least_shared2(h.0, h.1, 0)
    }
}

/// The summed ranks of the items shared by each three consecutive lines.
pub open spec fn line_badge_total(lines: Seq<String>) -> int
    decreases lines.len(),
{
    if lines.len() < 3 {
        0
    } else {
        let n = lines.len() as int;
        line_badge_total(lines.subrange(0, n - 3)) + least_shared3(
            line_bytes(lines[n - 3]),
            line_bytes(lines[n - 2]),
            line_bytes(lines[n - 1]),
            0,
        )
    }
}

proof fn lemma_totals_match(lines: Seq<String>, sacks: Seq<Rucksack>)
    requires
        sacks_of(lines, sacks),
    ensures
        error_total(sacks) == line_error_total(lines),
        badge_total(sacks) == line_badge_total(lines),
    decreases lines.len(),
{
    if lines.len() > 0 {
        let n = lines.len() as int;
        assert forall|i: int| 0 <= i < n - 1 implies (#[trigger] sacks.drop_last()[i]).wf()
            && sacks.drop_last()[i].first() == halves_of(line_bytes(lines.drop_last()[i])).0
            && sacks.drop_last()[i].second() == halves_of(line_bytes(lines.drop_last()[i])).1 by {
            assert(sacks[i].wf());
        }
        lemma_totals_match(lines.drop_last(), sacks.drop_last());
        assert(sacks[n - 1].wf());
    }
    if lines.len() >= 3 {
        let n = lines.len() as int;
        assert forall|i: int| 0 <= i < n - 3 implies (#[trigger] sacks.subrange(0, n - 3)[i]).wf()
            && sacks.subrange(0, n - 3)[i].first() == halves_of(line_bytes(lines.subrange(0, n - 3)[i])).0
            && sacks.subrange(0, n - 3)[i].second() == halves_of(line_bytes(lines.subrange(0, n - 3)[i])).1 by {
            assert(sacks[i].wf());
        }
        lemma_totals_match(lines.subrange(0, n - 3), sacks.subrange(0, n - 3));
        assert forall|i: int| n - 3 <= i < n implies (#[trigger] sacks[i]).all() == line_bytes(lines[i]) by {
            assert(sacks[i].wf());
            let l = line_bytes(lines[i]);
            assert(l == l.subrange(0, l.len() as int / 2) + l.subrange(l.len() as int / 2, l.len() as int));
        }
    }
}

/// Both rank sums for a list of rucksacks; `Err` where a line holds a byte
/// that is not a letter, the lines do not form groups of three, or the sums
/// could not be held in a `u64`.
pub fn solve(raw_input: &[String]) -> (r: Result<(u64, u64), ()>)
    ensures
        match r {
            Ok((a, b)) => a == line_error_total(raw_input@) && b == line_badge_total(raw_input@),
            Err(_) => (exists|i: int| 0 <= i < raw_input@.len() && !all_items(#[trigger] line_bytes(raw_input@[i])))
                || raw_input@.len() % 3 != 0 || 52 * raw_input@.len() > u64::MAX,
        },
{
    let input = parse_input(raw_input)?;
    if input.len() % 3 != 0 || input.len() as u128 * 52 > u64::MAX as u128 {
        return Err(());
    }
    proof {
        lemma_totals_match(raw_input@, input@);
    }
    Ok((part1(&input), part2(&input)))
}

} // verus!
