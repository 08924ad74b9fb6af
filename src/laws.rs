//! Properties that hold across the operations of the library.
use vstd::prelude::*;
use crate::listing::{
    FileModel, ListingTree, aggregate, all_files, all_files_in, file_stats, lemma_file_stats_concat, size_sum,
};
use crate::reshape::{condensed, flatten, lemma_condensed, lemma_flatten};
use crate::stats::{
    ExtStat, ext_of, has_name, lemma_add_stat, merge, names_unique, total_bytes, total_count,
};
use crate::tree::{DirTree, Measure, dir_before, measure, subs_sum, tree_sum, well_formed};
use crate::order::{is_arrangement, ordered_stably};
use crate::directory::{lemma_aggregate, scanned};

verus! {

/// The distinct extensions among a list of files.
pub open spec fn extensions_of(files: Seq<FileModel>) -> Set<Option<Seq<char>>> {
    files.map_values(|f: FileModel| ext_of(f.name)).to_set()
}

/// The extensions for which a list of statistics holds an entry.
pub open spec fn names_of(s: Seq<ExtStat>) -> Seq<Option<Seq<char>>> {
    s.map_values(|e: ExtStat| e.name)
}

/// Folding a list in holds an entry for exactly the extensions of either list.
pub proof fn lemma_merge_names(s: Seq<ExtStat>, t: Seq<ExtStat>, x: Option<Seq<char>>)
    requires
        names_unique(s),
    ensures
        has_name(merge(s, t), x) == (has_name(s, x) || has_name(t, x)),
    decreases t.len(),
{
    if t.len() > 0 {
        lemma_merge_names(s, t.drop_last(), x);
        crate::stats::lemma_merge(s, t.drop_last(), x);
        lemma_add_stat(merge(s, t.drop_last()), t.last(), x);
        if has_name(t.drop_last(), x) {
            let i = choose|i: int| 0 <= i < t.drop_last().len() && t.drop_last()[i].name == x;
            assert(t[i].name == x);
        }
        if has_name(t, x) && t.last().name != x {
            let i = choose|i: int| 0 <= i < t.len() && t[i].name == x;
            assert(t.drop_last()[i].name == x);
        }
    }
}

/// For the files of a directory, the statistics hold one entry per distinct
/// extension; their counts add up to the number of files and their byte
/// totals to the sum of the files' sizes.
pub proof fn lemma_extension_totals(files: Seq<FileModel>)
    ensures
        total_count(aggregate(files)) == files.len(),
        total_bytes(aggregate(files)) == size_sum(files),
        names_unique(aggregate(files)),
        aggregate(files).len() == extensions_of(files).len(),
{
    lemma_aggregate(files);
    let a = aggregate(files);
    let names = names_of(a);
    assert(names.no_duplicates()) by {
        assert forall|i: int, j: int| 0 <= i < names.len() && 0 <= j < names.len() && i != j implies names[i]
            != names[j] by {
            assert(names[i] == a[i].name && names[j] == a[j].name);
        }
    }
    names.unique_seq_to_set();
    assert forall|x: Option<Seq<char>>| names.to_set().contains(x) == extensions_of(files).contains(x) by {
        lemma_merge_names(Seq::empty(), file_stats(files), x);
        let fs = file_stats(files);
        let exts = files.map_values(|f: FileModel| ext_of(f.name));
        if names.to_set().contains(x) {
            let i = choose|i: int| 0 <= i < names.len() && names[i] == x;
            assert(a[i].name == x);
            assert(has_name(a, x));
            let j = choose|j: int| 0 <= j < fs.len() && fs[j].name == x;
            assert(exts[j] == x);
        }
        if extensions_of(files).contains(x) {
            let j = choose|j: int| 0 <= j < exts.len() && exts[j] == x;
            assert(fs[j].name == x);
            assert(has_name(fs, x));
            let i = choose|i: int| 0 <= i < a.len() && a[i].name == x;
            assert(names[i] == x);
        }
    }
    assert(names.to_set() =~= extensions_of(files));
}

/// Condensing to a depth twice is condensing once.
pub proof fn lemma_condense_idempotent(t: DirTree, d: nat)
    ensures
        condensed(condensed(t, d), d) == condensed(t, d),
    decreases t,
{
    let c = condensed(t, d);
    if t.depth >= d {
        assert(flatten(c) == c.exts);
        assert(condensed(c, d).subs =~= c.subs);
    } else {
        assert forall|i: int| 0 <= i < c.subs.len() implies #[trigger] condensed(c, d).subs[i] == c.subs[i] by {
            lemma_condense_idempotent(t.subs[i], d);
        }
        assert(condensed(c, d).subs =~= c.subs);
    }
}

/// Where a tree is condensed changes only its shape: every total, overall and
/// per extension, is the same at any two depths; condensed to depth 0 the
/// tree is a single node whose statistics hold all of them.
pub proof fn lemma_condense_keeps_totals(t: DirTree, d1: nat, d2: nat)
    requires
        well_formed(t),
    ensures
        forall|m: Measure| #[trigger] tree_sum(condensed(t, d1), m) == tree_sum(condensed(t, d2), m),
        condensed(t, 0).subs.len() == 0,
        forall|m: Measure| #[trigger] measure(condensed(t, 0).exts, m) == tree_sum(t, m),
{
    lemma_condensed(t, d1);
    lemma_condensed(t, d2);
    lemma_flatten(t);
    assert forall|m: Measure| #[trigger] tree_sum(condensed(t, d1), m) == tree_sum(condensed(t, d2), m) by {
        assert(tree_sum(condensed(t, d1), m) == tree_sum(t, m));
        assert(tree_sum(condensed(t, d2), m) == tree_sum(t, m));
    }
}

/// Sum of a list of numbers.
pub open spec fn nat_sum(s: Seq<nat>) -> nat
    decreases s.len(),
{
    if s.len() == 0 {
        0
    } else {
        nat_sum(s.drop_last()) + s.last()
    }
}

/// Taking one number out of a list takes it out of the sum.
proof fn lemma_nat_sum_remove(s: Seq<nat>, k: int)
    requires
        0 <= k < s.len(),
    ensures
        nat_sum(s) == nat_sum(s.remove(k)) + s[k],
    decreases s.len(),
{
    if k == s.len() - 1 {
        assert(s.remove(k) =~= s.drop_last());
    } else {
        assert(s.remove(k).drop_last() =~= s.drop_last().remove(k));
        assert(s.remove(k).last() == s.last());
        lemma_nat_sum_remove(s.drop_last(), k);
    }
}

/// Trees whose sums are the numbers of `vals` in the order `p` sum to the
/// sum of `vals`.
proof fn lemma_subs_sum_arranged(out: Seq<DirTree>, vals: Seq<nat>, p: Seq<int>, m: Measure)
    requires
        is_arrangement(p, vals.len()),
        out.len() == vals.len(),
        forall|i: int| 0 <= i < out.len() ==> tree_sum(out[i], m) == vals[#[trigger] p[i]],
    ensures
        subs_sum(out, m) == nat_sum(vals),
    decreases out.len(),
{
    let n = out.len() as int;
    if n > 0 {
        let k = p[n - 1];
        let q = Seq::new((n - 1) as nat, |i: int| if p[i] < k { p[i] } else { p[i] - 1 });
        let v2 = vals.remove(k);
        let o2 = out.subrange(0, n - 1);
        assert forall|i: int| 0 <= i < n - 1 implies 0 <= #[trigger] q[i] < n - 1 && v2[q[i]] == vals[p[i]] by {
            assert(p[i] != p[n - 1]);
            assert(0 <= p[i] < n);
        }
        assert forall|i: int, j: int| 0 <= i < n - 1 && 0 <= j < n - 1 && i != j implies q[i] != q[j] by {
            assert(p[i] != p[j] && p[i] != k && p[j] != k);
        }
        assert forall|i: int| 0 <= i < o2.len() implies tree_sum(o2[i], m) == v2[#[trigger] q[i]] by {
            assert(o2[i] == out[i]);
            assert(tree_sum(out[i], m) == vals[p[i]]);
        }
        lemma_subs_sum_arranged(o2, v2, q, m);
        lemma_nat_sum_remove(vals, k);
        assert(tree_sum(out[n - 1], m) == vals[p[n - 1]]);
    }
}

/// Every measure of a concatenation adds up.
pub proof fn lemma_measure_concat(a: Seq<ExtStat>, b: Seq<ExtStat>, m: Measure)
    ensures
        measure(a + b, m) == measure(a, m) + measure(b, m),
    decreases b.len(),
{
    if b.len() > 0 {
        assert((a + b).drop_last() =~= a + b.drop_last());
        lemma_measure_concat(a, b.drop_last(), m);
    } else {
        assert(a + b =~= a);
    }
}

/// The measure of the files of each listing of `s`.
pub open spec fn listing_measures(s: Seq<ListingTree>, m: Measure) -> Seq<nat> {
    Seq::new(s.len(), |j: int| measure(file_stats(all_files(s[j])), m))
}

/// The measure of the files of a list of listings is the sum of theirs.
proof fn lemma_listings_measure(s: Seq<ListingTree>, m: Measure)
    ensures
        measure(file_stats(all_files_in(s)), m) == nat_sum(listing_measures(s, m)),
    decreases s.len(),
{
    if s.len() > 0 {
        let pre = s.subrange(0, s.len() - 1);
        lemma_listings_measure(pre, m);
        assert(listing_measures(s, m).drop_last() =~= listing_measures(pre, m));
        lemma_file_stats_concat(all_files_in(pre), all_files(s[s.len() - 1]));
        lemma_measure_concat(file_stats(all_files_in(pre)), file_stats(all_files(s[s.len() - 1])), m);
    } else {
        assert(file_stats(all_files_in(s)) =~= Seq::<ExtStat>::empty());
    }
}

/// Folding a list into nothing keeps each of its measures.
proof fn lemma_merge_into_empty(t: Seq<ExtStat>, m: Measure)
    ensures
        measure(merge(Seq::empty(), t), m) == measure(t, m),
{
    let x = match m {
        Measure::FilesOf(y) => y,
        Measure::BytesOf(y) => y,
        _ => None,
    };
    crate::stats::lemma_merge(Seq::empty(), t, x);
    assert(measure(Seq::<ExtStat>::empty(), m) == 0);
}

/// A scanned tree records, in all, every file of its listing: each measure
/// of the tree is that of the listing's files, whatever the depth ceiling.
pub proof fn lemma_scanned_measures(l: ListingTree, depth: nat, max: nat, t: DirTree)
    requires
        scanned(l, depth, max, t),
    ensures
        forall|m: Measure| #[trigger] tree_sum(t, m) == measure(file_stats(all_files(l)), m),
    decreases l,
{
    if depth >= max {
        assert forall|m: Measure| #[trigger] tree_sum(t, m) == measure(file_stats(all_files(l)), m) by {
            lemma_merge_into_empty(file_stats(all_files(l)), m);
            assert(subs_sum(t.subs, m) == 0);
        }
    } else {
        let before = |a: DirTree, b: DirTree| dir_before(a, b);
        let p = choose|p: Seq<int>|
            {
                &&& is_arrangement(p, l.dirs.len())
                &&& ordered_stably(t.subs, p, before)
                &&& forall|i: int|
                    0 <= i < t.subs.len() ==> 0 <= #[trigger] p[i] < l.dirs.len() && scanned(
                        l.dirs[p[i]],
                        depth + 1,
                        max,
                        t.subs[i],
                    )
            };
        assert forall|i: int| #![trigger t.subs[i]] 0 <= i < t.subs.len() implies forall|m: Measure| #[trigger] tree_sum(t.subs[i], m)
            == measure(file_stats(all_files(l.dirs[p[i]])), m) by {
            assert(0 <= p[i] < l.dirs.len() && scanned(l.dirs[p[i]], depth + 1, max, t.subs[i]));
            lemma_scanned_measures(l.dirs[p[i]], depth + 1, max, t.subs[i]);
        }
        assert forall|m: Measure| #[trigger] tree_sum(t, m) == measure(file_stats(all_files(l)), m) by {
            let vals = listing_measures(l.dirs, m);
            assert forall|i: int| 0 <= i < t.subs.len() implies tree_sum(t.subs[i], m) == vals[#[trigger] p[i]] by {
                assert(0 <= p[i] < l.dirs.len());
                assert(tree_sum(t.subs[i], m) == measure(file_stats(all_files(l.dirs[p[i]])), m));
            }
            lemma_subs_sum_arranged(t.subs, vals, p, m);
            lemma_listings_measure(l.dirs, m);
            lemma_merge_into_empty(file_stats(l.files), m);
            lemma_file_stats_concat(l.files, all_files_in(l.dirs));
            lemma_measure_concat(file_stats(l.files), file_stats(all_files_in(l.dirs)), m);
        }
    }
}

/// Where the depth ceiling stands changes only the shape of a scan: two
/// scans of one listing hold the same totals, overall and per extension; and
/// a scan whose ceiling is at or above its root is a single node whose
/// statistics hold all of them.
pub proof fn lemma_scans_agree(l: ListingTree, depth: nat, max1: nat, max2: nat, t1: DirTree, t2: DirTree)
    requires
        scanned(l, depth, max1, t1),
        scanned(l, depth, max2, t2),
    ensures
        forall|m: Measure| #[trigger] tree_sum(t1, m) == tree_sum(t2, m),
        max1 <= depth ==> t1.subs.len() == 0,
        max1 <= depth ==> forall|m: Measure| #[trigger] measure(t1.exts, m) == tree_sum(t2, m),
{
    lemma_scanned_measures(l, depth, max1, t1);
    lemma_scanned_measures(l, depth, max2, t2);
    assert forall|m: Measure| #[trigger] tree_sum(t1, m) == tree_sum(t2, m) by {
        assert(tree_sum(t1, m) == measure(file_stats(all_files(l)), m));
    }
    if max1 <= depth {
        assert forall|m: Measure| #[trigger] measure(t1.exts, m) == tree_sum(t2, m) by {
            assert(tree_sum(t1, m) == measure(t1.exts, m) + subs_sum(t1.subs, m));
            assert(tree_sum(t1, m) == tree_sum(t2, m));
        }
    }
}

} // verus!
