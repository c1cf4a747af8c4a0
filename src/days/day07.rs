use vstd::prelude::*;
use crate::text::{decimal_of, find_byte, first_index, line_bytes, parse_decimal};

verus! {

/// A directory or a file; node 0 is the root, which is its own parent.
pub struct NodeData {
    pub parent: usize,
    pub name: Vec<u8>,
    pub is_dir: bool,
    pub size: u64,
}

/// Parent, name, whether a directory, and own size (0 for a directory).
pub type NodeModel = (int, Seq<u8>, bool, int);

pub open spec fn node_view(n: NodeData) -> NodeModel {
    (n.parent as int, n.name@, n.is_dir, n.size as int)
}

pub open spec fn fs_view(nodes: Seq<NodeData>) -> Seq<NodeModel> {
    nodes.map_values(|n: NodeData| node_view(n))
}

/// The tree is well formed: it has a root, and every other node's parent
/// comes before it.
pub open spec fn fs_wf(fs: Seq<NodeModel>) -> bool {
    fs.len() > 0 && fs[0].0 == 0 && forall|i: int| 0 < i < fs.len() ==> 0 <= (#[trigger] fs[i]).0 < i
}

/// The first node from `k` on with parent `cur` and name `name`.
pub open spec fn find_from(fs: Seq<NodeModel>, cur: int, name: Seq<u8>, k: int) -> Option<int>
    decreases fs.len() - k,
{
    if k >= fs.len() || k < 1 {
        None
    } else if fs[k].0 == cur && fs[k].1 == name {
        Some(k)
    } else {
        find_from(fs, cur, name, k + 1)
    }
}

pub open spec fn cd_up() -> Seq<u8> {
    seq![36u8, 32u8, 99u8, 100u8, 32u8, 46u8, 46u8]
}

pub open spec fn cd_word() -> Seq<u8> {
    seq![36u8, 32u8, 99u8, 100u8, 32u8]
}

pub open spec fn ls_line() -> Seq<u8> {
    seq![36u8, 32u8, 108u8, 115u8]
}

pub open spec fn dir_word() -> Seq<u8> {
    seq![100u8, 105u8, 114u8]
}

pub open spec fn starts_with(s: Seq<u8>, p: Seq<u8>) -> bool {
    s.len() >= p.len() && s.subrange(0, p.len() as int) == p
}

/// One line of the terminal session, in directory `cur`: `$ cd ..` goes up,
/// `$ cd x` goes into `x` (made where it is new), `$ ls` does nothing, and
/// `dir x` or `n x` records a directory or a file of size `n` where `x` is new.
#[verifier::opaque]
pub open spec fn step(fs: Seq<NodeModel>, cur: int, l: Seq<u8>) -> Option<(Seq<NodeModel>, int)> {
    if l == cd_up() {
        Some((fs, fs[cur].0))
    } else if starts_with(l, cd_word()) {
        let name = l.subrange(5, l.len() as int);
        match find_from(fs, cur, name, 1) {
            Some(i) => Some((fs, i)),
            None => Some((fs.push((cur, name, true, 0int)), fs.len() as int)),
        }
    } else if l == ls_line() {
        Some((fs, cur))
    } else {
        match first_index(l, 32) {
            None => None,
            Some(k) => {
                let info = l.subrange(0, k);
                let name = l.subrange(k + 1, l.len() as int);
                if find_from(fs, cur, name, 1) is Some {
                    Some((fs, cur))
                } else if info == dir_word() {
                    Some((fs.push((cur, name, true, 0int)), cur))
                } else {
                    match decimal_of(info) {
                        Some(v) => Some((fs.push((cur, name, false, v as int)), cur)),
                        None => None,
                    }
                }
            },
        }
    }
}

/// The tree and the current directory after the session's lines.
pub open spec fn session(lines: Seq<String>) -> Option<(Seq<NodeModel>, int)>
    decreases lines.len(),
{
    if lines.len() == 0 {
        Some((seq![(0int, Seq::<u8>::empty(), true, 0int)], 0int))
    } else {
        match session(lines.drop_last()) {
            None => None,
            Some((fs, cur)) => step(fs, cur, line_bytes(lines.last())),
        }
    }
}

fn same_bytes(a: &[u8], b: &[u8]) -> (r: bool)
    ensures
        r == (a@ == b@),
{
    if a.len() != b.len() {
        return false;
    }
    let mut i: usize = 0;
    while i < a.len()
        invariant
            i <= a@.len(),
            a@.len() == b@.len(),
            forall|j: int| 0 <= j < i ==> a@[j] == b@[j],
        decreases a.len() - i,
    {
        if a[i] != b[i] {
            return false;
        }
        i += 1;
    }
    assert(a@ =~= b@);
    true
}

/// The tree built from a terminal session.
pub struct Filesystem {
    pub nodes: Vec<NodeData>,
}

impl Filesystem {
    /// A tree holding the root alone.
    pub fn new() -> (r: Filesystem)
        ensures
            fs_view(r.nodes@) == seq![(0int, Seq::<u8>::empty(), true, 0int)],
    {
        let mut nodes: Vec<NodeData> = Vec::new();
        nodes.push(NodeData { parent: 0, name: Vec::new(), is_dir: true, size: 0 });
        let r = Filesystem { nodes };
        assert(fs_view(r.nodes@) =~= seq![(0int, Seq::<u8>::empty(), true, 0int)]);
        r
    }

    /// The node under `cur` called `name`, if there is one.
    pub fn find_child(&self, cur: usize, name: &[u8]) -> (r: Option<usize>)
        ensures
            match find_from(fs_view(self.nodes@), cur as int, name@, 1) {
                Some(i) => r is Some && r->0 as int == i,
                None => r is None,
            },
    {
        let ghost fs = fs_view(self.nodes@);
        let mut k: usize = 1;
        while k < self.nodes.len()
            invariant
                1 <= k,
                fs == fs_view(self.nodes@),
                find_from(fs, cur as int, name@, k as int) == find_from(fs, cur as int, name@, 1),
            decreases self.nodes@.len() - k,
        {
            assert(fs[k as int] == node_view(self.nodes@[k as int]));
            if self.nodes[k].parent == cur && same_bytes(self.nodes[k].name.as_slice(), name) {
                return Some(k);
            }
            k += 1;
        }
        None
    }

    /// Adds a node under `cur`.
    fn add(&mut self, cur: usize, name: &[u8], is_dir: bool, size: u64)
        requires
            fs_wf(fs_view(old(self).nodes@)),
            cur < old(self).nodes@.len(),
        ensures
            fs_view(final(self).nodes@) == fs_view(old(self).nodes@).push(
                (cur as int, name@, is_dir, size as int),
            ),
            fs_wf(fs_view(final(self).nodes@)),
    {
        let ghost before = fs_view(self.nodes@);
        let mut n: Vec<u8> = Vec::new();
        let mut i: usize = 0;
        while i < name.len()
            invariant
                i <= name@.len(),
                n@ == name@.subrange(0, i as int),
            decreases name.len() - i,
        {
            n.push(name[i]);
            assert(n@ =~= name@.subrange(0, i as int + 1));
            i += 1;
        }
        assert(n@ =~= name@);
        self.nodes.push(NodeData { parent: cur, name: n, is_dir, size });
        assert(fs_view(self.nodes@) =~= before.push((cur as int, name@, is_dir, size as int)));
    }

    /// Runs one line of the session in directory `cur`.
    pub fn run_line(&mut self, cur: usize, l: &[u8]) -> (r: Result<usize, ()>)
        requires
            fs_wf(fs_view(old(self).nodes@)),
            cur < old(self).nodes@.len(),
        ensures
            match step(fs_view(old(self).nodes@), cur as int, l@) {
                Some((fs, c)) => r is Ok && r->Ok_0 as int == c && fs_view(final(self).nodes@) == fs,
                None => r is Err,
            },
            fs_wf(fs_view(final(self).nodes@)),
            r is Ok ==> r->Ok_0 < final(self).nodes@.len(),
    {
        let up = vec![36u8, 32u8, 99u8, 100u8, 32u8, 46u8, 46u8];
        let cd = vec![36u8, 32u8, 99u8, 100u8, 32u8];
        let ls = vec![36u8, 32u8, 108u8, 115u8];
        let dir = vec![100u8, 105u8, 114u8];
        assert(up@ == cd_up() && cd@ == cd_word() && ls@ == ls_line() && dir@ == dir_word());
        let ghost fs = fs_view(self.nodes@);
        reveal(step);
        let n = l.len();
        if same_bytes(l, up.as_slice()) {
            assert(fs[cur as int] == node_view(self.nodes@[cur as int]));
            let p = self.nodes[cur].parent;
            return Ok(p);
        }
        if n >= 5 && same_bytes(&l[0..5], cd.as_slice()) {
            let name = &l[5..n];
            return match self.find_child(cur, name) {
                Some(k) => {
                    proof {
                        lemma_find_in_range(fs, cur as int, name@, 1);
                        assert(k as int == find_from(fs, cur as int, name@, 1)->0);
                    }
                    Ok(k)
                },
                None => {
                    let len = self.nodes.len();
                    self.add(cur, name, true, 0);
                    Ok(len)
                },
            };
        }
        proof {
            if n >= 5 {
                assert(l@.subrange(0, 5) != cd_word());
            }
        }
        if same_bytes(l, ls.as_slice()) {
            return Ok(cur);
        }
        match find_byte(l, 32) {
            None => Err(()),
            Some(k) => {
                let info = &l[0..k];
                let name = &l[k + 1..n];
                if self.find_child(cur, name).is_some() {
                    Ok(cur)
                } else if same_bytes(info, dir.as_slice()) {
                    self.add(cur, name, true, 0);
                    Ok(cur)
                } else {
                    match parse_decimal(info) {
                        Some(v) => {
                            self.add(cur, name, false, v);
                            Ok(cur)
                        },
                        None => Err(()),
                    }
                }
            },
        }
    }

    /// Reads a terminal session into the tree; `Err` where a line is neither
    /// a command nor a listing entry. The result is the directory it ends in.
    pub fn build(&mut self, input: &[String]) -> (r: Result<usize, ()>)
        requires
            fs_view(old(self).nodes@) == seq![(0int, Seq::<u8>::empty(), true, 0int)],
        ensures
            match session(input@) {
                Some((fs, cur)) => r is Ok && r->Ok_0 as int == cur && fs_view(final(self).nodes@) == fs,
                None => r is Err,
            },
            fs_wf(fs_view(final(self).nodes@)),
    {
        let mut cur: usize = 0;
        let mut i: usize = 0;
        assert(input@.subrange(0, 0) == Seq::<String>::empty());
        assert(self.nodes@.len() == fs_view(self.nodes@).len());
        while i < input.len()
            invariant
                i <= input@.len(),
                session(input@.subrange(0, i as int)) == Some((fs_view(self.nodes@), cur as int)),
                fs_wf(fs_view(self.nodes@)),
                cur < self.nodes@.len(),
            decreases input.len() - i,
        {
            let l = input[i].as_str().as_bytes();
            assert(input@.subrange(0, i as int + 1).drop_last() == input@.subrange(0, i as int));
            assert(l@ == line_bytes(input@[i as int]));
            assert(input@.subrange(0, i as int + 1).last() == input@[i as int]);
            match self.run_line(cur, l) {
                Ok(c) => cur = c,
                Err(_) => {
                    proof {
                        lemma_session_fail_extends(input@, i as int + 1);
                    }
                    return Err(());
                },
            }
            i += 1;
        }
        assert(input@.subrange(0, input@.len() as int) == input@);
        Ok(cur)
    }
}

proof fn lemma_find_in_range(fs: Seq<NodeModel>, cur: int, name: Seq<u8>, k: int)
    requires
        find_from(fs, cur, name, k) is Some,
    ensures
        0 < find_from(fs, cur, name, k)->0 < fs.len(),
    decreases fs.len() - k,
{
    if k < fs.len() && k >= 1 && !(fs[k].0 == cur && fs[k].1 == name) {
        lemma_find_in_range(fs, cur, name, k + 1);
    }
}

proof fn lemma_session_fail_extends(lines: Seq<String>, n: int)
    requires
        0 <= n <= lines.len(),
        session(lines.subrange(0, n)) is None,
    ensures
        session(lines) is None,
    decreases lines.len() - n,
{
    if n < lines.len() {
        assert(lines.subrange(0, n + 1).drop_last() == lines.subrange(0, n));
        lemma_session_fail_extends(lines, n + 1);
    } else {
        assert(lines.subrange(0, n) == lines);
    }
}

/// Node `f` lies in the subtree of node `d` (a node lies in its own).
pub open spec fn under(fs: Seq<NodeModel>, f: int, d: int) -> bool
    decreases f,
{
    if f == d {
        true
    } else if f <= 0 || f >= fs.len() || fs[f].0 >= f || fs[f].0 < 0 {
        false
    } else {
        under(fs, fs[f].0, d)
    }
}

/// The sizes of the files among the first `k` nodes that lie under `d`.
pub open spec fn size_upto(fs: Seq<NodeModel>, d: int, k: int) -> int
    decreases k,
{
    if k <= 0 {
        0
    } else {
        size_upto(fs, d, k - 1) + if under(fs, k - 1, d) && !fs[k - 1].2 { fs[k - 1].3 } else { 0 }
    }
}

/// The total size of the files under `d`.
pub open spec fn dir_size(fs: Seq<NodeModel>, d: int) -> int {
    size_upto(fs, d, fs.len() as int)
}

pub open spec fn sizes_nonneg(fs: Seq<NodeModel>) -> bool {
    forall|k: int| 0 <= k < fs.len() ==> 0 <= #[trigger] fs[k].3
}

proof fn lemma_size_monotone(fs: Seq<NodeModel>, d: int, k: int, m: int)
    requires
        sizes_nonneg(fs),
        0 <= k <= m <= fs.len(),
    ensures
        0 <= size_upto(fs, d, k) <= size_upto(fs, d, m),
    decreases m,
{
    if k < m {
        lemma_size_monotone(fs, d, k, m - 1);
        assert(0 <= fs[m - 1].3);
    } else if k > 0 {
        lemma_size_monotone(fs, d, k - 1, k - 1);
        assert(0 <= fs[k - 1].3);
    }
}

proof fn lemma_view_sizes(nodes: Seq<NodeData>)
    ensures
        sizes_nonneg(fs_view(nodes)),
{
    assert forall|k: int| 0 <= k < fs_view(nodes).len() implies 0 <= #[trigger] fs_view(nodes)[k].3 by {
        assert(fs_view(nodes)[k] == node_view(nodes[k]));
    }
}

/// The sum of the sizes of all directories but the root whose size is at
/// most `limit`, among the first `k` nodes.
pub open spec fn small_total(fs: Seq<NodeModel>, limit: int, k: int) -> int
    decreases k,
{
    if k <= 1 {
        0
    } else {
        small_total(fs, limit, k - 1) + if fs[k - 1].2 && dir_size(fs, k - 1) <= limit {
            dir_size(fs, k - 1)
        } else {
            0
        }
    }
}

/// The size limit of the small directories that are summed up.
pub const SMALL_DIR: u64 = 100000;

/// The disk's capacity.
pub const DISK: u64 = 70000000;

/// The free space an update needs.
pub const NEEDED: u64 = 30000000;

impl Filesystem {
    pub open spec fn model(&self) -> Seq<NodeModel> {
        fs_view(self.nodes@)
    }

    /// Whether node `f` lies under node `d`.
    pub fn is_under(&self, f: usize, d: usize) -> (r: bool)
        requires
            fs_wf(self.model()),
            f < self.nodes@.len(),
        ensures
            r == under(self.model(), f as int, d as int),
    {
        let ghost fs = self.model();
        let mut g: usize = f;
        while g != d && g != 0
            invariant
                fs == self.model(),
                fs_wf(fs),
                g < self.nodes@.len(),
                fs.len() == self.nodes@.len(),
                under(fs, f as int, d as int) == under(fs, g as int, d as int),
            decreases g,
        {
            assert(fs[g as int] == node_view(self.nodes@[g as int]));
            g = self.nodes[g].parent;
        }
        g == d
    }

    /// The total size of the files under `d`, or `None` where it exceeds a `u64`.
    pub fn calc_size(&self, d: usize) -> (r: Option<u64>)
        requires
            fs_wf(self.model()),
        ensures
            match r {
                Some(v) => v == dir_size(self.model(), d as int),
                None => dir_size(self.model(), d as int) > u64::MAX,
            },
    {
        let ghost fs = self.model();
        proof {
            lemma_view_sizes(self.nodes@);
        }
        let mut total: u64 = 0;
        let mut k: usize = 0;
        while k < self.nodes.len()
            invariant
                fs == self.model(),
                fs_wf(fs),
                sizes_nonneg(fs),
                fs.len() == self.nodes@.len(),
                k <= self.nodes@.len(),
                total == size_upto(fs, d as int, k as int),
            decreases self.nodes@.len() - k,
        {
            assert(fs[k as int] == node_view(self.nodes@[k as int]));
            if !self.nodes[k].is_dir && self.is_under(k, d) {
                let v = self.nodes[k].size;
                if total > u64::MAX - v {
                    proof {
                        lemma_size_monotone(fs, d as int, k as int + 1, fs.len() as int);
                    }
                    return None;
                }
                total = total + v;
            }
            k += 1;
        }
        Some(total)
    }
}

/// The summed size of the directories of at most `SMALL_DIR`.
pub fn part1(fs: &Filesystem) -> (r: u128)
    requires
        fs_wf(fs.model()),
    ensures
        r == small_total(fs.model(), SMALL_DIR as int, fs.model().len() as int),
{
    let ghost m = fs.model();
    let mut total: u128 = 0;
    let mut k: usize = 1;
    assert(m.len() == fs.nodes@.len());
    while k < fs.nodes.len()
        invariant
            m == fs.model(),
            fs_wf(m),
            m.len() == fs.nodes@.len(),
            1 <= k <= fs.nodes@.len(),
            total == small_total(m, SMALL_DIR as int, k as int),
            total <= k * SMALL_DIR,
        decreases fs.nodes@.len() - k,
    {
        assert(m[k as int] == node_view(fs.nodes@[k as int]));
        if fs.nodes[k].is_dir {
            match fs.calc_size(k) {
                Some(v) => {
                    if v <= SMALL_DIR {
                        total = total + v as u128;
                    }
                },
                None => {},
            }
        }
        k += 1;
    }
    total
}

/// The size of the smallest directory but the root, among the first `k`
/// nodes, whose size is at least `need` and fits a `u64`.
pub open spec fn smallest_fit(fs: Seq<NodeModel>, need: int, k: int) -> Option<int>
    decreases k,
{
    if k <= 1 {
        None
    } else {
        let prev = smallest_fit(fs, need, k - 1);
        let s = dir_size(fs, k - 1);
        if fs[k - 1].2 && need <= s <= u64::MAX && (prev is None || s < prev->0) {
            Some(s)
        } else {
            prev
        }
    }
}

/// The room an update still needs once directory `root` takes `used`, where
/// it fits on the disk and the disk lacks room.
pub open spec fn room_needed(used: int) -> Option<int> {
    if used > DISK || DISK - used > NEEDED {
        None
    } else {
        Some(NEEDED - (DISK - used))
    }
}

/// The size of the smallest directory whose removal frees enough room, where
/// `/` exists, its size fits, it fits on the disk and room is lacking.
pub open spec fn part2_result(fs: Seq<NodeModel>) -> Option<int> {
    match find_from(fs, 0, seq![47u8], 1) {
        None => None,
        Some(root) => if dir_size(fs, root) > u64::MAX {
            None
        } else {
            match room_needed(dir_size(fs, root)) {
                None => None,
                Some(need) => smallest_fit(fs, need, fs.len() as int),
            }
        },
    }
}

/// The smallest directory to delete to make room for the update.
pub fn part2(fs: &Filesystem) -> (r: Option<u64>)
    requires
        fs_wf(fs.model()),
    ensures
        match part2_result(fs.model()) {
            Some(v) => r is Some && r->0 == v,
            None => r is None,
        },
{
    let ghost m = fs.model();
    let slash = vec![47u8];
    assert(slash@ == seq![47u8]);
    let root = match fs.find_child(0, slash.as_slice()) {
        Some(k) => k,
        None => return None,
    };
    let used = match fs.calc_size(root) {
        Some(v) => v,
        None => return None,
    };
    if used > DISK || DISK - used > NEEDED {
        return None;
    }
    let need = NEEDED - (DISK - used);
    let mut best: Option<u64> = None;
    let mut k: usize = 1;
    assert(m.len() == fs.nodes@.len());
    while k < fs.nodes.len()
        invariant
            m == fs.model(),
            fs_wf(m),
            m.len() == fs.nodes@.len(),
            1 <= k <= fs.nodes@.len(),
            match smallest_fit(m, need as int, k as int) {
                Some(v) => best is Some && best->0 == v,
                None => best is None,
            },
        decreases fs.nodes@.len() - k,
    {
        assert(m[k as int] == node_view(fs.nodes@[k as int]));
        if fs.nodes[k].is_dir {
            match fs.calc_size(k) {
                Some(v) => {
                    if v >= need {
                        match best {
                            Some(b) => {
                                if v < b {
                                    best = Some(v);
                                }
                            },
                            None => best = Some(v),
                        }
                    }
                },
                None => {},
            }
        }
        k += 1;
    }
    best
}

/// The summed size of the small directories and the size of the directory
/// to delete; `Err` where a line of the session is not understood.
pub fn solve(raw_input: &[String]) -> (r: Result<(u128, Option<u64>), ()>)
    ensures
        match session(raw_input@) {
            Some((fs, _)) => r is Ok && r->Ok_0.0 == small_total(fs, SMALL_DIR as int, fs.len() as int)
                && match part2_result(fs) {
                Some(v) => r->Ok_0.1 is Some && r->Ok_0.1->0 == v,
                None => r->Ok_0.1 is None,
            },
            None => r is Err,
        },
{
    let mut fs = Filesystem::new();
    match fs.build(raw_input) {
        Ok(_) => {},
        Err(_) => return Err(()),
    }
    Ok((part1(&fs), part2(&fs)))
}

} // verus!
