//! Reshaping a scanned tree in place: ordering every node's extensions, and
//! condensing the tree to a depth.
use vstd::prelude::*;
use crate::directory::{Directory, trees_of};
use crate::order::{ExtensionSortingMethod, ext_before, lemma_sorted_stats, sort_extensions, stable_sort_of};
use crate::stats::{ExtStat, Extension, absorb, counts_positive, lemma_merge, merge, name_view, names_unique, stats_of, total_bytes, total_count};
use crate::listing::lemma_totals_concat;
use crate::render::lemma_count_positive;
use crate::tree::{
    DirTree, Measure, dir_before, measure, subs_sum, tree_bytes, tree_count, tree_sum, well_formed,
    lemma_subs_sum_bounds, lemma_subs_sum_prefix,
};

verus! {

/// `after` is `before` with every node's extensions sorted stably under `m`
/// and nothing else changed.
pub open spec fn sorted_tree(before: DirTree, after: DirTree, m: ExtensionSortingMethod) -> bool
    decreases before,
{
    &&& after.root == before.root
    &&& after.depth == before.depth
    &&& stable_sort_of(before.exts, after.exts, |a: ExtStat, b: ExtStat| ext_before(m, a, b))
    &&& after.subs.len() == before.subs.len()
    &&& forall|i: int|
        0 <= i < before.subs.len() ==> sorted_tree(before.subs[i], #[trigger] after.subs[i], m)
}

/// Lists of trees with the same sums, one by one, have the same sum.
pub proof fn lemma_subs_sum_pointwise(a: Seq<DirTree>, b: Seq<DirTree>, m: Measure)
    requires
        a.len() == b.len(),
        forall|i: int| 0 <= i < a.len() ==> tree_sum(#[trigger] a[i], m) == tree_sum(b[i], m),
    ensures
        subs_sum(a, m) == subs_sum(b, m),
    decreases a.len(),
{
    if a.len() > 0 {
        let a0 = a.subrange(0, a.len() - 1);
        let b0 = b.subrange(0, b.len() - 1);
        assert forall|i: int| 0 <= i < a0.len() implies tree_sum(#[trigger] a0[i], m) == tree_sum(b0[i], m) by {
            assert(a0[i] == a[i] && b0[i] == b[i]);
        }
        lemma_subs_sum_pointwise(a0, b0, m);
        assert(tree_sum(a[a.len() - 1], m) == tree_sum(b[b.len() - 1], m));
    }
}

/// A subtree of a tree whose totals fit keeps them fitting.
proof fn lemma_child_fits(t: DirTree, i: int)
    requires
        0 <= i < t.subs.len(),
    ensures
        tree_count(t.subs[i]) <= tree_count(t),
        tree_bytes(t.subs[i]) <= tree_bytes(t),
{
    lemma_subs_sum_bounds(t.subs, i, Measure::Files);
    lemma_subs_sum_bounds(t.subs, i, Measure::Bytes);
}

impl Directory {
    /// An empty directory, used as a stand-in while a subdirectory is moved out.
    fn placeholder() -> (r: Self) {
        Directory { root: String::new(), extensions: Vec::new(), subdirectories: Vec::new(), depth: 0 }
    }

    /// Orders the extensions of every node of the tree stably under `method`;
    /// subdirectories keep their order by name.
    pub fn sort_by(&mut self, method: ExtensionSortingMethod)
        requires
            old(self).wf(),
        ensures
            final(self).wf(),
            sorted_tree(old(self)@, final(self)@, method),
            tree_count(final(self)@) == tree_count(old(self)@),
            tree_bytes(final(self)@) == tree_bytes(old(self)@),
        decreases old(self)@,
    {
        let ghost t0 = self@;
        let mut exts: Vec<Extension> = Vec::new();
        std::mem::swap(&mut exts, &mut self.extensions);
        self.extensions = sort_extensions(exts, method);
        let mut subs: Vec<Directory> = Vec::new();
        std::mem::swap(&mut subs, &mut self.subdirectories);
        let n = subs.len();
        let mut i: usize = 0;
        assert(trees_of(subs@) =~= t0.subs);
        while i < n
            invariant
                n == subs.len(),
                n == t0.subs.len(),
                well_formed(t0),
                t0 == old(self)@,
                self.root@ == t0.root,
                self.depth == t0.depth,
                stable_sort_of(t0.exts, stats_of(self.extensions@), |a: ExtStat, b: ExtStat| ext_before(method, a, b)),
                total_count(stats_of(self.extensions@)) == total_count(t0.exts),
                total_bytes(stats_of(self.extensions@)) == total_bytes(t0.exts),
                tree_count(t0) <= usize::MAX,
                tree_bytes(t0) <= u64::MAX,
                i <= n,
                forall|j: int|
                    0 <= j < i ==> {
                        &&& sorted_tree(t0.subs[j], #[trigger] trees_of(subs@)[j], method)
                        &&& well_formed(trees_of(subs@)[j])
                        &&& tree_count(trees_of(subs@)[j]) == tree_count(t0.subs[j])
                        &&& tree_bytes(trees_of(subs@)[j]) == tree_bytes(t0.subs[j])
                    },
                forall|j: int| i <= j < n ==> #[trigger] trees_of(subs@)[j] == t0.subs[j],
            decreases n - i,
        {
            let mut c = Directory::placeholder();
            let ghost s0 = subs@;
            subs.set_and_swap(i, &mut c);
            proof {
                assert(c@ == trees_of(s0)[i as int]);
                lemma_child_fits(t0, i as int);
                assert(decreases_to!(t0 => t0.subs));
                assert(decreases_to!(t0.subs => t0.subs[i as int]));
                assert(decreases_to!(t0 => c@));
            }
            c.sort_by(method);
            let ghost s1 = subs@;
            subs.set_and_swap(i, &mut c);
            assert forall|j: int| 0 <= j < n && j != i implies #[trigger] trees_of(subs@)[j] == trees_of(s0)[j] by {
                assert(subs@[j] == s0[j]);
            }
            i += 1;
        }
        self.subdirectories = subs;
        proof {
            let t1 = self@;
            let before = |a: ExtStat, b: ExtStat| ext_before(method, a, b);
            lemma_sorted_stats(t0.exts, t1.exts, before);
            assert(t1.subs =~= trees_of(self.subdirectories@));
            assert forall|j: int| 0 <= j < t0.subs.len() implies sorted_tree(t0.subs[j], #[trigger] t1.subs[j], method)
                && well_formed(t1.subs[j]) && t1.subs[j].depth == t1.depth + 1 by {
                assert(t1.subs[j] == trees_of(self.subdirectories@)[j]);
            }
            assert forall|a: int, b: int| 0 <= a < b < t1.subs.len() implies !dir_before(#[trigger] t1.subs[b], #[trigger] t1.subs[a]) by {
                assert(t1.subs[a].root == t0.subs[a].root);
                assert(t1.subs[b].root == t0.subs[b].root);
                assert(!dir_before(t0.subs[b], t0.subs[a]));
            }
            assert forall|j: int| 0 <= j < t1.subs.len() implies tree_sum(#[trigger] t1.subs[j], Measure::Files) == tree_sum(t0.subs[j], Measure::Files)
                && tree_sum(t1.subs[j], Measure::Bytes) == tree_sum(t0.subs[j], Measure::Bytes) by {
                assert(t1.subs[j] == trees_of(self.subdirectories@)[j]);
            }
            lemma_subs_sum_pointwise(t1.subs, t0.subs, Measure::Files);
            lemma_subs_sum_pointwise(t1.subs, t0.subs, Measure::Bytes);
        }
    }
}

/// Every statistic of a tree folded into one list: the node's own, then
/// those of each subdirectory's tree in order, matching extensions summed.
pub open spec fn flatten(t: DirTree) -> Seq<ExtStat>
    decreases t, 1nat,
{
    flatten_subs(t.subs, t.exts)
}

/// The statistics of the trees of `s`, in order, folded into `acc`.
pub open spec fn flatten_subs(s: Seq<DirTree>, acc: Seq<ExtStat>) -> Seq<ExtStat>
    decreases s, 0nat,
{
    if s.len() == 0 {
        acc
    } else {
        merge(flatten_subs(s.subrange(0, s.len() - 1), acc), flatten(s[s.len() - 1]))
    }
}

/// The tree condensed to depth `d`: every node at depth `d` or deeper holds
/// the statistics of its whole subtree and has no subdirectories; nodes
/// above keep theirs.
pub open spec fn condensed(t: DirTree, d: nat) -> DirTree
    decreases t,
{
    if t.depth >= d {
        DirTree { root: t.root, depth: t.depth, exts: flatten(t), subs: Seq::empty() }
    } else {
        DirTree {
            root: t.root,
            depth: t.depth,
            exts: t.exts,
            subs: Seq::new(
                t.subs.len(),
                |i: int|
                    if 0 <= i < t.subs.len() {
                        condensed(t.subs[i], d)
                    } else {
                        t
                    },
            ),
        }
    }
}

/// Folding trees into a list keeps one entry per extension, each for at
/// least one file, and adds up every measure.
pub proof fn lemma_flatten_subs(s: Seq<DirTree>, acc: Seq<ExtStat>)
    requires
        names_unique(acc),
        counts_positive(acc),
        forall|i: int| 0 <= i < s.len() ==> well_formed(#[trigger] s[i]),
    ensures
        names_unique(flatten_subs(s, acc)),
        counts_positive(flatten_subs(s, acc)),
        forall|m: Measure| #[trigger] measure(flatten_subs(s, acc), m) == measure(acc, m) + subs_sum(s, m),
    decreases s, 0nat,
{
    if s.len() > 0 {
        let pre = s.subrange(0, s.len() - 1);
        let x = s[s.len() - 1];
        assert forall|i: int| 0 <= i < pre.len() implies well_formed(#[trigger] pre[i]) by {
            assert(pre[i] == s[i]);
        }
        lemma_flatten_subs(pre, acc);
        lemma_flatten(x);
        let f = flatten_subs(pre, acc);
        lemma_merge(f, flatten(x), None);
        assert forall|m: Measure| #[trigger] measure(flatten_subs(s, acc), m) == measure(acc, m) + subs_sum(s, m) by {
            match m {
                Measure::FilesOf(y) => {
                    lemma_merge(f, flatten(x), y);
                },
                Measure::BytesOf(y) => {
                    lemma_merge(f, flatten(x), y);
                },
                _ => {},
            }
            assert(measure(flatten(x), m) == tree_sum(x, m));
            assert(measure(f, m) == measure(acc, m) + subs_sum(pre, m));
        }
    }
}

/// The flattened statistics of a tree keep one entry per extension, each for
/// at least one file, and hold every measure of the tree.
pub proof fn lemma_flatten(t: DirTree)
    requires
        well_formed(t),
    ensures
        names_unique(flatten(t)),
        counts_positive(flatten(t)),
        forall|m: Measure| #[trigger] measure(flatten(t), m) == tree_sum(t, m),
    decreases t, 1nat,
{
    assert forall|i: int| 0 <= i < t.subs.len() implies well_formed(#[trigger] t.subs[i]) by {}
    lemma_flatten_subs(t.subs, t.exts);
}

/// Condensing keeps a tree well-formed and keeps every measure of it: no
/// statistic is lost, whatever the depth.
pub proof fn lemma_condensed(t: DirTree, d: nat)
    requires
        well_formed(t),
    ensures
        well_formed(condensed(t, d)),
        forall|m: Measure| #[trigger] tree_sum(condensed(t, d), m) == tree_sum(t, m),
    decreases t,
{
    let c = condensed(t, d);
    if t.depth >= d {
        lemma_flatten(t);
        assert forall|m: Measure| #[trigger] tree_sum(c, m) == tree_sum(t, m) by {
            assert(subs_sum(c.subs, m) == 0);
        }
    } else {
        assert forall|i: int| 0 <= i < t.subs.len() implies well_formed(#[trigger] c.subs[i])
            && c.subs[i].depth == c.depth + 1 && c.subs[i].root == t.subs[i].root && (forall|m: Measure|
            #[trigger] tree_sum(c.subs[i], m) == tree_sum(t.subs[i], m)) by {
            lemma_condensed(t.subs[i], d);
        }
        assert forall|i: int, j: int| 0 <= i < j < c.subs.len() implies !dir_before(#[trigger] c.subs[j], #[trigger] c.subs[i]) by {
            assert(c.subs[i].root == t.subs[i].root);
            assert(c.subs[j].root == t.subs[j].root);
            assert(!dir_before(t.subs[j], t.subs[i]));
        }
        assert forall|m: Measure| #[trigger] tree_sum(c, m) == tree_sum(t, m) by {
            assert forall|i: int| 0 <= i < c.subs.len() implies tree_sum(#[trigger] c.subs[i], m) == tree_sum(t.subs[i], m) by {
                lemma_condensed(t.subs[i], d);
            }
            lemma_subs_sum_pointwise(c.subs, t.subs, m);
        }
    }
}

/// A prefix of a list of trees sums to no more than the whole list.
pub proof fn lemma_subs_sum_prefix_le(s: Seq<DirTree>, i: int, m: Measure)
    requires
        0 <= i <= s.len(),
    ensures
        subs_sum(s.subrange(0, i), m) <= subs_sum(s, m),
    decreases s.len() - i,
{
    if i < s.len() {
        lemma_subs_sum_prefix(s, i, m);
        lemma_subs_sum_prefix_le(s, i + 1, m);
    } else {
        assert(s.subrange(0, i) =~= s);
    }
}

/// A copy of an optional name.
fn copy_name(n: &Option<String>) -> (r: Option<String>)
    ensures
        name_view(r) == name_view(*n),
{
    match n {
        Some(s) => Some(s.clone()),
        None => None,
    }
}

/// Folds every entry of `other`, in order, into `extensions`.
fn merge_into(extensions: &mut Vec<Extension>, other: &Vec<Extension>)
    requires
        names_unique(stats_of(old(extensions)@)),
        total_count(stats_of(old(extensions)@)) + total_count(stats_of(other@)) <= usize::MAX,
        total_bytes(stats_of(old(extensions)@)) + total_bytes(stats_of(other@)) <= u64::MAX,
    ensures
        stats_of(final(extensions)@) == merge(stats_of(old(extensions)@), stats_of(other@)),
{
    let ghost s0 = stats_of(extensions@);
    let ghost o = stats_of(other@);
    let mut k: usize = 0;
    assert(o.subrange(0, 0) =~= Seq::<ExtStat>::empty());
    while k < other.len()
        invariant
            s0 == stats_of(old(extensions)@),
            o == stats_of(other@),
            names_unique(s0),
            total_count(s0) + total_count(o) <= usize::MAX,
            total_bytes(s0) + total_bytes(o) <= u64::MAX,
            k <= other.len(),
            stats_of(extensions@) == merge(s0, o.subrange(0, k as int)),
        decreases other.len() - k,
    {
        proof {
            let pre = o.subrange(0, k as int);
            lemma_merge(s0, pre, None);
            let a = o.subrange(0, k + 1);
            let b = o.subrange(k + 1, o.len() as int);
            assert(o =~= a + b);
            lemma_totals_concat(a, b);
            assert(a.drop_last() =~= pre);
        }
        let e = &other[k];
        absorb(extensions, copy_name(&e.name), e.count, e.total_size_bytes);
        proof {
            assert(o[k as int] == e@);
        }
        k += 1;
    }
    assert(o.subrange(0, k as int) =~= o);
}

impl Directory {
    /// Folds every statistic of the subtree into this node and drops its
    /// subdirectories.
    fn collapse(&mut self)
        requires
            old(self).wf(),
        ensures
            final(self)@ == (DirTree {
                root: old(self)@.root,
                depth: old(self)@.depth,
                exts: flatten(old(self)@),
                subs: Seq::empty(),
            }),
        decreases old(self)@,
    {
        let ghost t0 = self@;
        let mut subs: Vec<Directory> = Vec::new();
        std::mem::swap(&mut subs, &mut self.subdirectories);
        let n = subs.len();
        let mut i: usize = 0;
        assert(trees_of(subs@) =~= t0.subs);
        assert(t0.subs.subrange(0, 0) =~= Seq::<DirTree>::empty());
        while i < n
            invariant
                t0 == old(self)@,
                old(self).wf(),
                self.root@ == t0.root,
                self.depth == t0.depth,
                n == subs.len(),
                n == t0.subs.len(),
                i <= n,
                forall|j: int| i <= j < n ==> #[trigger] trees_of(subs@)[j] == t0.subs[j],
                stats_of(self.extensions@) == flatten_subs(t0.subs.subrange(0, i as int), t0.exts),
            decreases n - i,
        {
            let mut c = Directory::placeholder();
            let ghost s0 = subs@;
            subs.set_and_swap(i, &mut c);
            let ghost pre = t0.subs.subrange(0, i as int);
            proof {
                assert(c@ == trees_of(s0)[i as int]);
                lemma_child_fits(t0, i as int);
                assert(decreases_to!(t0 => t0.subs));
                assert(decreases_to!(t0.subs => t0.subs[i as int]));
                assert(forall|j: int| 0 <= j < pre.len() ==> pre[j] == t0.subs[j]);
                lemma_flatten_subs(pre, t0.exts);
                lemma_flatten(c@);
                lemma_subs_sum_prefix(t0.subs, i as int, Measure::Files);
                lemma_subs_sum_prefix(t0.subs, i as int, Measure::Bytes);
                lemma_subs_sum_prefix_le(t0.subs, i + 1, Measure::Files);
                lemma_subs_sum_prefix_le(t0.subs, i + 1, Measure::Bytes);
                assert(measure(flatten_subs(pre, t0.exts), Measure::Files) == total_count(t0.exts) + subs_sum(pre, Measure::Files));
                assert(measure(flatten_subs(pre, t0.exts), Measure::Bytes) == total_bytes(t0.exts) + subs_sum(pre, Measure::Bytes));
                assert(measure(flatten(c@), Measure::Files) == tree_count(c@));
                assert(measure(flatten(c@), Measure::Bytes) == tree_bytes(c@));
            }
            c.collapse();
            merge_into(&mut self.extensions, &c.extensions);
            proof {
                assert(t0.subs.subrange(0, i + 1).subrange(0, i as int) =~= pre);
                assert(stats_of(c.extensions@) == c@.exts);
            }
            assert forall|j: int| i + 1 <= j < n implies #[trigger] trees_of(subs@)[j] == t0.subs[j] by {
                assert(subs@[j] == s0[j]);
                assert(trees_of(s0)[j] == t0.subs[j]);
            }
            i += 1;
        }
        self.subdirectories = Vec::new();
        assert(t0.subs.subrange(0, i as int) =~= t0.subs);
        assert(self@.subs =~= Seq::<DirTree>::empty());
    }

    /// Condenses the tree to depth `target_depth`, as `condensed` describes.
    pub fn condense_to_depth(&mut self, target_depth: usize)
        requires
            old(self).wf(),
        ensures
            final(self).wf(),
            final(self)@ == condensed(old(self)@, target_depth as nat),
        decreases old(self)@,
    {
        let ghost t0 = self@;
        proof {
            lemma_condensed(t0, target_depth as nat);
            assert(tree_sum(condensed(t0, target_depth as nat), Measure::Files) == tree_sum(t0, Measure::Files));
            assert(tree_sum(condensed(t0, target_depth as nat), Measure::Bytes) == tree_sum(t0, Measure::Bytes));
        }
        if self.depth >= target_depth {
            self.collapse();
            assert(self@ == condensed(t0, target_depth as nat));
            return;
        }
        let mut subs: Vec<Directory> = Vec::new();
        std::mem::swap(&mut subs, &mut self.subdirectories);
        let n = subs.len();
        let mut i: usize = 0;
        assert(trees_of(subs@) =~= t0.subs);
        while i < n
            invariant
                t0 == old(self)@,
                old(self).wf(),
                self.root@ == t0.root,
                self.depth == t0.depth,
                stats_of(self.extensions@) == t0.exts,
                t0.depth < target_depth,
                n == subs.len(),
                n == t0.subs.len(),
                i <= n,
                forall|j: int| 0 <= j < i ==> #[trigger] trees_of(subs@)[j] == condensed(t0.subs[j], target_depth as nat),
                forall|j: int| i <= j < n ==> #[trigger] trees_of(subs@)[j] == t0.subs[j],
            decreases n - i,
        {
            let mut c = Directory::placeholder();
            let ghost s0 = subs@;
            subs.set_and_swap(i, &mut c);
            proof {
                assert(c@ == trees_of(s0)[i as int]);
                lemma_child_fits(t0, i as int);
                assert(decreases_to!(t0 => t0.subs));
                assert(decreases_to!(t0.subs => t0.subs[i as int]));
            }
            c.condense_to_depth(target_depth);
            subs.set_and_swap(i, &mut c);
            assert forall|j: int| 0 <= j < n && j != i implies #[trigger] trees_of(subs@)[j] == trees_of(s0)[j] by {
                assert(subs@[j] == s0[j]);
            }
            i += 1;
        }
        self.subdirectories = subs;
        assert forall|j: int| 0 <= j < n implies self@.subs[j] == condensed(t0, target_depth as nat).subs[j] by {
            assert(self@.subs[j] == trees_of(self.subdirectories@)[j]);
        }
        assert(self@.subs =~= condensed(t0, target_depth as nat).subs);
        assert(self@ == condensed(t0, target_depth as nat));
    }
}

/// The tree without the subdirectories, at any level, that record no file.
pub open spec fn pruned(t: DirTree) -> DirTree
    decreases t, 1nat,
{
    DirTree { root: t.root, depth: t.depth, exts: t.exts, subs: pruned_subs(t.subs) }
}

/// The trees of `s` that record a file, in order, each pruned.
pub open spec fn pruned_subs(s: Seq<DirTree>) -> Seq<DirTree>
    decreases s, 0nat,
{
    if s.len() == 0 {
        Seq::empty()
    } else {
        let rest = pruned_subs(s.subrange(0, s.len() - 1));
        let x = s[s.len() - 1];
        if tree_count(x) > 0 {
            rest.push(pruned(x))
        } else {
            rest
        }
    }
}

/// A well-formed tree that records no file records nothing at all.
pub proof fn lemma_empty_tree(t: DirTree)
    requires
        well_formed(t),
        tree_count(t) == 0,
    ensures
        forall|m: Measure| #[trigger] tree_sum(t, m) == 0,
    decreases t, 1nat,
{
    if t.exts.len() > 0 {
        lemma_count_positive(t.exts);
    }
    assert forall|i: int| 0 <= i < t.subs.len() implies well_formed(#[trigger] t.subs[i]) by {}
    lemma_empty_subs(t.subs);
    assert(t.exts.len() == 0);
    assert forall|m: Measure| #[trigger] tree_sum(t, m) == 0 by {
        assert(t.exts =~= Seq::<ExtStat>::empty());
        assert(tree_sum(t, m) == measure(t.exts, m) + subs_sum(t.subs, m));
        assert(subs_sum(t.subs, m) == 0);
        assert(measure(t.exts, m) == 0) by {
            match m {
                Measure::Files => {},
                Measure::Bytes => {},
                Measure::FilesOf(x) => {},
                Measure::BytesOf(x) => {},
            }
        }
    }
}

/// Well-formed trees that together record no file record nothing at all.
pub proof fn lemma_empty_subs(s: Seq<DirTree>)
    requires
        forall|i: int| 0 <= i < s.len() ==> well_formed(#[trigger] s[i]),
        subs_sum(s, Measure::Files) == 0,
    ensures
        forall|m: Measure| #[trigger] subs_sum(s, m) == 0,
    decreases s, 0nat,
{
    if s.len() > 0 {
        let pre = s.subrange(0, s.len() - 1);
        assert forall|i: int| 0 <= i < pre.len() implies well_formed(#[trigger] pre[i]) by {
            assert(pre[i] == s[i]);
        }
        assert(subs_sum(s, Measure::Files) == subs_sum(pre, Measure::Files) + tree_sum(s[s.len() - 1], Measure::Files));
        lemma_empty_subs(pre);
        lemma_empty_tree(s[s.len() - 1]);
        assert forall|m: Measure| #[trigger] subs_sum(s, m) == 0 by {
            assert(subs_sum(s, m) == subs_sum(pre, m) + tree_sum(s[s.len() - 1], m));
            assert(subs_sum(pre, m) == 0);
            assert(tree_sum(s[s.len() - 1], m) == 0);
        }
    } else {
        assert forall|m: Measure| #[trigger] subs_sum(s, m) == 0 by {}
    }
}

/// Pruning keeps a list of trees well-formed and in order, drops only trees
/// that record nothing, and keeps every measure.
pub proof fn lemma_pruned_subs(s: Seq<DirTree>, depth: nat)
    requires
        forall|i: int| 0 <= i < s.len() ==> well_formed(#[trigger] s[i]) && s[i].depth == depth,
        forall|i: int, j: int| #![trigger s[i], s[j]] 0 <= i < j < s.len() ==> !dir_before(s[j], s[i]),
    ensures
        forall|m: Measure| #[trigger] subs_sum(pruned_subs(s), m) == subs_sum(s, m),
        forall|a: int|
            0 <= a < pruned_subs(s).len() ==> well_formed(#[trigger] pruned_subs(s)[a]) && pruned_subs(s)[a].depth
                == depth,
        forall|a: int|
            #![trigger pruned_subs(s)[a]]
            0 <= a < pruned_subs(s).len() ==> exists|j: int|
                #![trigger s[j]]
                0 <= j < s.len() && pruned_subs(s)[a].root == s[j].root,
        forall|a: int, b: int|
            #![trigger pruned_subs(s)[a], pruned_subs(s)[b]]
            0 <= a < b < pruned_subs(s).len() ==> !dir_before(pruned_subs(s)[b], pruned_subs(s)[a]),
    decreases s, 0nat,
{
    if s.len() > 0 {
        let pre = s.subrange(0, s.len() - 1);
        let x = s[s.len() - 1];
        let rest = pruned_subs(pre);
        let r = pruned_subs(s);
        assert forall|i: int| 0 <= i < pre.len() implies well_formed(#[trigger] pre[i]) && pre[i].depth == depth by {
            assert(pre[i] == s[i]);
        }
        assert forall|i: int, j: int| #![trigger pre[i], pre[j]] 0 <= i < j < pre.len() implies !dir_before(pre[j], pre[i]) by {
            assert(pre[i] == s[i] && pre[j] == s[j]);
        }
        lemma_pruned_subs(pre, depth);
        lemma_pruned(x);
        assert forall|m: Measure| #[trigger] subs_sum(r, m) == subs_sum(s, m) by {
            assert(subs_sum(s, m) == subs_sum(pre, m) + tree_sum(x, m));
            assert(subs_sum(rest, m) == subs_sum(pre, m));
            if tree_count(x) > 0 {
                crate::tree::lemma_subs_sum_push(rest, pruned(x), m);
                assert(tree_sum(pruned(x), m) == tree_sum(x, m));
            } else {
                lemma_empty_tree(x);
                assert(tree_sum(x, m) == 0);
            }
        }
        assert forall|a: int| #![trigger r[a]] 0 <= a < r.len() implies exists|j: int| #![trigger s[j]] 0 <= j < s.len() && r[a].root == s[j].root by {
            if a < rest.len() {
                assert(r[a] == rest[a]);
                let j = choose|j: int| #![trigger pre[j]] 0 <= j < pre.len() && rest[a].root == pre[j].root;
                assert(pre[j] == s[j]);
            } else {
                assert(r[a].root == s[s.len() - 1].root);
            }
        }
        assert forall|a: int| 0 <= a < r.len() implies well_formed(#[trigger] r[a]) && r[a].depth == depth by {
            if a < rest.len() {
                assert(r[a] == rest[a]);
            }
        }
        assert forall|a: int, b: int| #![trigger r[a], r[b]] 0 <= a < b < r.len() implies !dir_before(r[b], r[a]) by {
            if b < rest.len() {
                assert(r[a] == rest[a] && r[b] == rest[b]);
            } else {
                assert(r[a] == rest[a]);
                let j = choose|j: int| #![trigger pre[j]] 0 <= j < pre.len() && rest[a].root == pre[j].root;
                assert(pre[j] == s[j]);
                assert(r[b].root == x.root);
                assert(!dir_before(s[s.len() - 1], s[j]));
            }
        }
    }
}

/// Pruning keeps a tree well-formed and keeps every measure of it.
pub proof fn lemma_pruned(t: DirTree)
    requires
        well_formed(t),
    ensures
        well_formed(pruned(t)),
        forall|m: Measure| #[trigger] tree_sum(pruned(t), m) == tree_sum(t, m),
    decreases t, 1nat,
{
    let p = pruned(t);
    assert forall|i: int| 0 <= i < t.subs.len() implies well_formed(#[trigger] t.subs[i]) && t.subs[i].depth == t.depth + 1 by {}
    lemma_pruned_subs(t.subs, t.depth + 1);
    let r = pruned_subs(t.subs);
    assert(p.subs == r);
    assert forall|a: int| 0 <= a < p.subs.len() implies (#[trigger] p.subs[a]).depth == p.depth + 1 && well_formed(
        p.subs[a],
    ) by {
        assert(well_formed(r[a]) && r[a].depth == t.depth + 1);
    }
    assert forall|a: int, c: int| 0 <= a < c < p.subs.len() implies !dir_before(#[trigger] p.subs[c], #[trigger] p.subs[a]) by {
        assert(!dir_before(r[c], r[a]));
    }
    assert forall|m: Measure| #[trigger] tree_sum(p, m) == tree_sum(t, m) by {
        assert(subs_sum(r, m) == subs_sum(t.subs, m));
    }
}

impl Directory {
    /// Removes every subdirectory, at any level, that records no file.
    pub fn prune_empty(&mut self)
        requires
            old(self).wf(),
        ensures
            final(self).wf(),
            final(self)@ == pruned(old(self)@),
        decreases old(self)@,
    {
        let ghost t0 = self@;
        proof {
            lemma_pruned(t0);
            assert(tree_sum(pruned(t0), Measure::Files) == tree_sum(t0, Measure::Files));
            assert(tree_sum(pruned(t0), Measure::Bytes) == tree_sum(t0, Measure::Bytes));
        }
        let mut subs: Vec<Directory> = Vec::new();
        std::mem::swap(&mut subs, &mut self.subdirectories);
        let mut kept: Vec<Directory> = Vec::new();
        let n = subs.len();
        let mut i: usize = 0;
        assert(trees_of(subs@) =~= t0.subs);
        assert(t0.subs.subrange(0, 0) =~= Seq::<DirTree>::empty());
        assert(trees_of(kept@) =~= Seq::<DirTree>::empty());
        while i < n
            invariant
                t0 == old(self)@,
                old(self).wf(),
                self.root@ == t0.root,
                self.depth == t0.depth,
                stats_of(self.extensions@) == t0.exts,
                n == subs.len(),
                n == t0.subs.len(),
                i <= n,
                trees_of(kept@) == pruned_subs(t0.subs.subrange(0, i as int)),
                forall|j: int| i <= j < n ==> #[trigger] trees_of(subs@)[j] == t0.subs[j],
            decreases n - i,
        {
            let mut c = Directory::placeholder();
            let ghost s0 = subs@;
            subs.set_and_swap(i, &mut c);
            proof {
                assert(c@ == trees_of(s0)[i as int]);
                lemma_child_fits(t0, i as int);
                assert(decreases_to!(t0 => t0.subs));
                assert(decreases_to!(t0.subs => t0.subs[i as int]));
                assert(t0.subs.subrange(0, i + 1).subrange(0, i as int) =~= t0.subs.subrange(0, i as int));
                assert(t0.subs.subrange(0, i + 1)[i as int] == c@);
            }
            if c.has_files() {
                c.prune_empty();
                let ghost k0 = trees_of(kept@);
                kept.push(c);
                assert(trees_of(kept@) =~= k0.push(c@));
            }
            assert forall|j: int| i + 1 <= j < n implies #[trigger] trees_of(subs@)[j] == t0.subs[j] by {
                assert(subs@[j] == s0[j]);
                assert(trees_of(s0)[j] == t0.subs[j]);
            }
            i += 1;
        }
        self.subdirectories = kept;
        assert(t0.subs.subrange(0, i as int) =~= t0.subs);
        assert(self@.subs =~= trees_of(self.subdirectories@));
        assert(self@ == pruned(t0));
    }
}

} // verus!
