//! The mathematical model of a scanned directory tree: its shape, its
//! well-formedness, and sums of its statistics.
use vstd::prelude::*;
use crate::order::text_lt;
use crate::stats::{ExtStat, bytes_of, count_of, counts_positive, names_unique, total_bytes, total_count};

verus! {

/// A directory node as a mathematical value: its path, its depth below the
/// scan root, its extension statistics and its subdirectories.
pub struct DirTree {
    pub root: Seq<char>,
    pub depth: nat,
    pub exts: Seq<ExtStat>,
    pub subs: Seq<DirTree>,
}

/// Position `k` holds the last `/` of `p`.
pub open spec fn is_last_slash(p: Seq<char>, k: int) -> bool {
    &&& 0 <= k < p.len()
    &&& p[k] == '/'
    &&& forall|j: int| k < j < p.len() ==> p[j] != '/'
}

/// `p` without its trailing separators and trailing `.` components, which
/// do not name a directory: `a/b/` and `a/b/.` both end in `b`.
pub open spec fn trimmed(p: Seq<char>) -> Seq<char>
    decreases p.len(),
{
    if p.len() == 0 {
        p
    } else if p.last() == '/' {
        trimmed(p.drop_last())
    } else if p.last() == '.' && (p.len() == 1 || p[p.len() - 2] == '/') {
        trimmed(p.drop_last())
    } else {
        p
    }
}

/// The last component of a path: what follows the last `/` of the trimmed
/// path, or the whole trimmed path.
pub open spec fn base_name(p: Seq<char>) -> Seq<char> {
    let t = trimmed(p);
    if exists|k: int| is_last_slash(t, k) {
        let k = choose|k: int| is_last_slash(t, k);
        t.subrange(k + 1, t.len() as int)
    } else {
        t
    }
}

/// The name of the directory at path `p`: its last component, unless the
/// path has none (it is a root, or empty) or that component is `..`.
pub open spec fn dir_name(p: Seq<char>) -> Option<Seq<char>> {
    let b = base_name(p);
    if b.len() == 0 || b == seq!['.', '.'] {
        None
    } else {
        Some(b)
    }
}

/// Directory `a` comes before directory `b`: its name is earlier in text order.
pub open spec fn dir_before(a: DirTree, b: DirTree) -> bool {
    text_lt(base_name(a.root), base_name(b.root))
}

/// The invariant of every node: one entry per extension, each for at least
/// one file; subdirectories one level deeper and ordered by name.
pub open spec fn well_formed(t: DirTree) -> bool
    decreases t,
{
    &&& names_unique(t.exts)
    &&& counts_positive(t.exts)
    &&& forall|i: int, j: int|
        #![trigger t.subs[i], t.subs[j]]
        0 <= i < j < t.subs.len() ==> !dir_before(t.subs[j], t.subs[i])
    &&& forall|i: int|
        0 <= i < t.subs.len() ==> (#[trigger] t.subs[i]).depth == t.depth + 1 && well_formed(t.subs[i])
}

/// A quantity summed over a tree's statistics.
pub enum Measure {
    Files,
    Bytes,
    FilesOf(Option<Seq<char>>),
    BytesOf(Option<Seq<char>>),
}

/// The quantity `m` of one node's statistics.
pub open spec fn measure(s: Seq<ExtStat>, m: Measure) -> nat {
    match m {
        Measure::Files => total_count(s),
        Measure::Bytes => total_bytes(s),
        Measure::FilesOf(x) => count_of(s, x),
        Measure::BytesOf(x) => bytes_of(s, x),
    }
}

/// The quantity `m` summed over every node of a tree.
pub open spec fn tree_sum(t: DirTree, m: Measure) -> nat
    decreases t, 1nat,
{
    measure(t.exts, m) + subs_sum(t.subs, m)
}

/// The quantity `m` summed over every node of a list of trees.
pub open spec fn subs_sum(s: Seq<DirTree>, m: Measure) -> nat
    decreases s, 0nat,
{
    if s.len() == 0 {
        0
    } else {
        subs_sum(s.subrange(0, s.len() - 1), m) + tree_sum(s[s.len() - 1], m)
    }
}

/// Number of files recorded anywhere in the tree.
pub open spec fn tree_count(t: DirTree) -> nat {
    tree_sum(t, Measure::Files)
}

/// Number of bytes recorded anywhere in the tree.
pub open spec fn tree_bytes(t: DirTree) -> nat {
    tree_sum(t, Measure::Bytes)
}

/// Summing over one more tree adds its sum.
pub proof fn lemma_subs_sum_push(s: Seq<DirTree>, x: DirTree, m: Measure)
    ensures
        subs_sum(s.push(x), m) == subs_sum(s, m) + tree_sum(x, m),
{
    assert(s.push(x).subrange(0, s.len() as int) =~= s);
}

/// Inserting a tree anywhere adds its sum.
pub proof fn lemma_subs_sum_insert(s: Seq<DirTree>, k: int, x: DirTree, m: Measure)
    requires
        0 <= k <= s.len(),
    ensures
        subs_sum(s.insert(k, x), m) == subs_sum(s, m) + tree_sum(x, m),
    decreases s.len(),
{
    let u = s.insert(k, x);
    if k == s.len() {
        assert(u =~= s.push(x));
        lemma_subs_sum_push(s, x, m);
    } else {
        let s0 = s.subrange(0, s.len() - 1);
        assert(u.subrange(0, u.len() - 1) =~= s0.insert(k, x));
        lemma_subs_sum_insert(s0, k, x, m);
    }
}

/// A sum over a prefix one longer adds the next tree.
pub proof fn lemma_subs_sum_prefix(s: Seq<DirTree>, i: int, m: Measure)
    requires
        0 <= i < s.len(),
    ensures
        subs_sum(s.subrange(0, i + 1), m) == subs_sum(s.subrange(0, i), m) + tree_sum(s[i], m),
{
    assert(s.subrange(0, i + 1).subrange(0, i) =~= s.subrange(0, i));
}

/// A sum over a list of trees bounds the sum of each of them.
pub proof fn lemma_subs_sum_bounds(s: Seq<DirTree>, i: int, m: Measure)
    requires
        0 <= i < s.len(),
    ensures
        tree_sum(s[i], m) <= subs_sum(s, m),
    decreases s.len(),
{
    if i < s.len() - 1 {
        lemma_subs_sum_bounds(s.subrange(0, s.len() - 1), i, m);
    }
}

} // verus!
