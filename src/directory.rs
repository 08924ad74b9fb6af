//! The directory tree: building it from a listing, and reading it.
use vstd::prelude::*;
use vstd::string::*;
use crate::listing::{
    FileEntry, FileModel, Listing, ListingTree, aggregate, all_files, all_files_in, file_stat, file_stats,
    lemma_all_files_in_step, lemma_all_files_prefix_bound, lemma_file_stats_concat, lemma_file_stats_count,
    lemma_file_stats_step, lemma_files_prefix_bound, lemma_merge_concat, lemma_size_sum_concat, listing_fits,
    listing_totals, size_sum,
};
use crate::order::{
    is_arrangement, lemma_arrangement_insert, lemma_insert_stable, lemma_text_lt_asymmetric, lemma_text_lt_key, ordered_stably,
    orders_by_key, stable_sort_of, text_less,
};
use crate::stats::{
    ExtStat, Extension, absorb, add_stat, bytes_of, count_of, counts_positive, extension_of, has_name,
    lemma_absent_totals, lemma_entry_totals, lemma_merge, merge, names_unique, stats_of, total_bytes,
    total_count,
};
use crate::tree::{
    DirTree, Measure, base_name, dir_before, is_last_slash, trimmed, lemma_subs_sum_insert, lemma_subs_sum_prefix,
    lemma_subs_sum_push, subs_sum, tree_bytes, tree_count, well_formed,
};

verus! {

/// A directory with the statistics of the files it holds directly (or, at
/// the depth ceiling, of every file below it) and its subdirectories, which
/// are kept ordered by name.
pub struct Directory {
    pub(crate) root: String,
    pub(crate) extensions: Vec<Extension>,
    pub(crate) subdirectories: Vec<Directory>,
    pub(crate) depth: usize,
}

/// Why a scan was refused.
#[derive(Debug, PartialEq, Eq, Structural)]
pub enum ScanError {
    /// More files than a `usize` counts, or more bytes than a `u64` holds.
    TooLarge,
}

/// The model of a directory, subdirectories included.
pub open(crate) spec fn dir_tree(d: &Directory) -> DirTree
    decreases d,
{
    DirTree {
        root: d.root@,
        depth: d.depth as nat,
        exts: stats_of(d.extensions@),
        subs: Seq::new(
            d.subdirectories@.len(),
            |i: int|
                if 0 <= i < d.subdirectories@.len() {
                    dir_tree(&d.subdirectories@[i])
                } else {
                    DirTree { root: Seq::empty(), depth: 0, exts: Seq::empty(), subs: Seq::empty() }
                },
        ),
    }
}

impl View for Directory {
    type V = DirTree;

    open(crate) spec fn view(&self) -> DirTree {
        dir_tree(self)
    }
}

/// The models of a list of files.
pub open spec fn files_of(v: Seq<FileEntry>) -> Seq<FileModel> {
    v.map_values(|f: FileEntry| f@)
}

/// The models of a list of directories.
pub open spec fn trees_of(v: Seq<Directory>) -> Seq<DirTree> {
    v.map_values(|d: Directory| d@)
}

/// `t` is what scanning listing `l` at `depth` with depth ceiling `max`
/// yields. Below the ceiling a node records its own files and has one
/// subdirectory per listed one, scanned one level deeper and ordered by
/// name (equal names keep the listing's order). At the ceiling it records
/// every file anywhere below it and has no subdirectories.
pub open spec fn scanned(l: ListingTree, depth: nat, max: nat, t: DirTree) -> bool
    decreases l,
{
    &&& t.root == l.path
    &&& t.depth == depth
    &&& if depth >= max {
        &&& t.exts == aggregate(all_files(l))
        &&& t.subs.len() == 0
    } else {
        &&& t.exts == aggregate(l.files)
        &&& t.subs.len() == l.dirs.len()
        &&& exists|p: Seq<int>|
            {
                &&& is_arrangement(p, l.dirs.len())
                &&& ordered_stably(t.subs, p, |a: DirTree, b: DirTree| dir_before(a, b))
                &&& forall|i: int|
                    0 <= i < t.subs.len() ==> 0 <= #[trigger] p[i] < l.dirs.len() && scanned(
                        l.dirs[p[i]],
                        depth + 1,
                        max,
                        t.subs[i],
                    )
            }
    }
}

/// In every directory of `l`, the listed subdirectories have distinct names.
pub open spec fn sibling_names_distinct(l: ListingTree) -> bool
    decreases l,
{
    &&& forall|i: int, j: int|
        #![trigger l.dirs[i], l.dirs[j]]
        0 <= i < l.dirs.len() && 0 <= j < l.dirs.len() && i != j ==> base_name(l.dirs[i].path) != base_name(
            l.dirs[j].path,
        )
    &&& forall|i: int| 0 <= i < l.dirs.len() ==> sibling_names_distinct(#[trigger] l.dirs[i])
}

/// In every node of `t`, the names of the subdirectories strictly increase.
pub open spec fn names_increase(t: DirTree) -> bool
    decreases t,
{
    &&& forall|i: int, j: int| #![trigger t.subs[i], t.subs[j]] 0 <= i < j < t.subs.len() ==> dir_before(t.subs[i], t.subs[j])
    &&& forall|i: int| 0 <= i < t.subs.len() ==> names_increase(#[trigger] t.subs[i])
}

/// Where sibling names are distinct in a listing, they strictly increase in
/// its scan.
pub proof fn lemma_scanned_names_increase(l: ListingTree, depth: nat, max: nat, t: DirTree)
    requires
        scanned(l, depth, max, t),
        sibling_names_distinct(l),
    ensures
        names_increase(t),
    decreases l,
{
    if depth < max {
        let before = |a: DirTree, b: DirTree| dir_before(a, b);
        let p = choose|p: Seq<int>|
            {
                &&& is_arrangement(p, l.dirs.len())
                &&& ordered_stably(t.subs, p, before)
                &&& forall|i: int|
                    0 <= i < t.subs.len() ==> 0 <= #[trigger] p[i] < l.dirs.len() && scanned(
                        l.dirs[p[i]],
                        depth + 1,
                        max,
                        t.subs[i],
                    )
            };
        assert forall|i: int, j: int| #![trigger t.subs[i], t.subs[j]] 0 <= i < j < t.subs.len() implies dir_before(
            t.subs[i],
            t.subs[j],
        ) by {
            assert(0 <= p[i] < l.dirs.len() && scanned(l.dirs[p[i]], depth + 1, max, t.subs[i]));
            assert(0 <= p[j] < l.dirs.len() && scanned(l.dirs[p[j]], depth + 1, max, t.subs[j]));
            assert(p[i] != p[j]);
            assert(base_name(l.dirs[p[i]].path) != base_name(l.dirs[p[j]].path));
            crate::order::lemma_text_lt_total(base_name(t.subs[i].root), base_name(t.subs[j].root));
            assert(before(t.subs[i], t.subs[j]) || !before(t.subs[j], t.subs[i]));
        }
        assert forall|i: int| 0 <= i < t.subs.len() implies names_increase(#[trigger] t.subs[i]) by {
            assert(0 <= p[i] < l.dirs.len() && scanned(l.dirs[p[i]], depth + 1, max, t.subs[i]));
            lemma_scanned_names_increase(l.dirs[p[i]], depth + 1, max, t.subs[i]);
        }
    }
}

/// Name order on directories orders by a key.
pub proof fn lemma_dir_order()
    ensures
        orders_by_key(|a: DirTree, b: DirTree| dir_before(a, b)),
{
    assert forall|a: DirTree, b: DirTree, c: DirTree|
        #[trigger] dir_before(a, b) && !dir_before(c, b) implies #[trigger] dir_before(a, c) by {
        lemma_text_lt_key(base_name(a.root), base_name(b.root), base_name(c.root));
    }
    assert forall|a: DirTree, b: DirTree| #[trigger] dir_before(a, b) implies !dir_before(b, a) by {
        lemma_text_lt_asymmetric(base_name(a.root), base_name(b.root));
    }
}

/// The length of the path `p` once trimmed, as `trimmed` describes it.
fn trimmed_len(p: &str) -> (r: usize)
    ensures
        r <= p@.len(),
        trimmed(p@) == p@.subrange(0, r as int),
{
    let len = p.unicode_len();
    let mut end: usize = len;
    let mut done = false;
    assert(p@.subrange(0, len as int) =~= p@);
    while end > 0 && !done
        invariant
            len == p@.len(),
            end <= len,
            trimmed(p@) == trimmed(p@.subrange(0, end as int)),
            done ==> trimmed(p@.subrange(0, end as int)) == p@.subrange(0, end as int),
        decreases end, if done { 0nat } else { 1nat },
    {
        let ghost q = p@.subrange(0, end as int);
        assert(q.drop_last() =~= p@.subrange(0, end - 1));
        let c = p.get_char(end - 1);
        if c == '/' || (c == '.' && (end == 1 || p.get_char(end - 2) == '/')) {
            end -= 1;
        } else {
            done = true;
        }
    }
    if end == 0 {
        assert(p@.subrange(0, 0) =~= Seq::<char>::empty());
    }
    end
}

/// The last component of a path, as `base_name` describes it.
pub fn base_name_of(p: &str) -> (r: String)
    ensures
        r@ == base_name(p@),
{
    let end = trimmed_len(p);
    let ghost t = p@.subrange(0, end as int);
    let mut i: usize = end;
    while i > 0
        invariant
            t == p@.subrange(0, end as int),
            t == trimmed(p@),
            end <= p@.len(),
            i <= end,
            forall|j: int| i <= j < end ==> t[j] != '/',
        decreases i,
    {
        if p.get_char(i - 1) == '/' {
            assert(is_last_slash(t, i - 1));
            proof {
                let k = choose|k: int| is_last_slash(t, k);
                if k < i - 1 {
                    assert(t[i - 1] == '/');
                } else if k > i - 1 {
                    assert(t[k] == '/');
                }
            }
            let r = String::from_str(p.substring_char(i, end));
            assert(r@ =~= t.subrange(i as int, end as int));
            return r;
        }
        i -= 1;
    }
    assert(!exists|k: int| is_last_slash(t, k));
    String::from_str(p.substring_char(0, end))
}

/// Whether directory `a` must come before directory `b`.
fn dir_precedes(a: &Directory, b: &Directory) -> (r: bool)
    ensures
        r == dir_before(a@, b@),
{
    let x = base_name_of(a.root.as_str());
    let y = base_name_of(b.root.as_str());
    text_less(x.as_str(), y.as_str())
}

/// The first position of `out` whose directory `x` must precede, or its length.
fn insertion_point(out: &Vec<Directory>, x: &Directory) -> (k: usize)
    ensures
        k <= out.len(),
        forall|j: int| 0 <= j < k ==> !dir_before(x@, #[trigger] trees_of(out@)[j]),
        k < out.len() ==> dir_before(x@, trees_of(out@)[k as int]),
{
    let mut k: usize = 0;
    while k < out.len()
        invariant
            k <= out.len(),
            forall|j: int| 0 <= j < k ==> !dir_before(x@, #[trigger] trees_of(out@)[j]),
        decreases out.len() - k,
    {
        if dir_precedes(x, &out[k]) {
            return k;
        }
        k += 1;
    }
    k
}

/// Sorts directories stably by name, by insertion.
fn sort_directories(v: Vec<Directory>) -> (r: Vec<Directory>)
    ensures
        stable_sort_of(trees_of(v@), trees_of(r@), |a: DirTree, b: DirTree| dir_before(a, b)),
        forall|m: Measure| #[trigger] subs_sum(trees_of(r@), m) == subs_sum(trees_of(v@), m),
{
    let ghost input = trees_of(v@);
    let ghost before = |a: DirTree, b: DirTree| dir_before(a, b);
    let mut rest = v;
    let mut out: Vec<Directory> = Vec::new();
    let ghost mut p: Seq<int> = Seq::empty();
    let mut i: usize = 0;
    let n = rest.len();
    proof {
        lemma_dir_order();
    }
    while rest.len() > 0
        invariant
            before == (|a: DirTree, b: DirTree| dir_before(a, b)),
            orders_by_key(before),
            n == input.len(),
            i + rest.len() == n,
            trees_of(rest@) == input.subrange(i as int, n as int),
            out.len() == i,
            p.len() == i,
            forall|a: int| 0 <= a < i ==> 0 <= #[trigger] p[a] < i,
            forall|a: int, b: int| 0 <= a < i && 0 <= b < i && a != b ==> p[a] != p[b],
            forall|a: int| 0 <= a < i ==> trees_of(out@)[a] == input[#[trigger] p[a]],
            ordered_stably(trees_of(out@), p, before),
            forall|m: Measure| #[trigger] subs_sum(trees_of(out@), m) == subs_sum(input.subrange(0, i as int), m),
        decreases rest.len(),
    {
        let ghost r0 = rest@;
        let x = rest.remove(0);
        assert(trees_of(r0)[0] == x@);
        assert(x@ == input[i as int]);
        assert(trees_of(rest@) =~= trees_of(r0).subrange(1, r0.len() as int));
        assert(trees_of(rest@) =~= input.subrange(i + 1, n as int));
        let k = insertion_point(&out, &x);
        proof {
            assert forall|j: int| 0 <= j < k implies !before(x@, #[trigger] trees_of(out@)[j]) by {
                assert(!dir_before(x@, trees_of(out@)[j]));
            }
            lemma_insert_stable(trees_of(out@), p, x@, i as int, k as int, before);
            assert forall|m: Measure| #[trigger] subs_sum(trees_of(out@).insert(k as int, x@), m)
                == subs_sum(input.subrange(0, i + 1), m) by {
                lemma_subs_sum_insert(trees_of(out@), k as int, x@, m);
                lemma_subs_sum_prefix(input, i as int, m);
            }
        }
        let ghost old_out = trees_of(out@);
        out.insert(k, x);
        assert(trees_of(out@) =~= old_out.insert(k as int, x@));
        proof {
            lemma_arrangement_insert(input, old_out, p, i as int, k as int);
            p = p.insert(k as int, i as int);
        }
        i += 1;
    }
    assert(input.subrange(0, n as int) =~= input);
    assert(is_arrangement(p, input.len()));
    out
}

/// Folds one file into `extensions`: the entry for its extension counts it,
/// or a new entry is appended for it.
fn add_file(file: &FileEntry, extensions: &mut Vec<Extension>)
    requires
        names_unique(stats_of(old(extensions)@)),
        total_count(stats_of(old(extensions)@)) + 1 <= usize::MAX,
        total_bytes(stats_of(old(extensions)@)) + file.size <= u64::MAX,
    ensures
        stats_of(final(extensions)@) == add_stat(stats_of(old(extensions)@), file_stat(file@)),
        names_unique(stats_of(final(extensions)@)),
        total_count(stats_of(final(extensions)@)) == total_count(stats_of(old(extensions)@)) + 1,
        total_bytes(stats_of(final(extensions)@)) == total_bytes(stats_of(old(extensions)@)) + file.size,
{
    absorb(extensions, extension_of(file.name.as_str()), 1, file.size);
    proof {
        crate::stats::lemma_add_stat(stats_of(old(extensions)@), file_stat(file@), None);
    }
}

/// Folds each of `files`, in order, into `extensions`.
fn fold_files(files: &Vec<FileEntry>, extensions: &mut Vec<Extension>)
    requires
        names_unique(stats_of(old(extensions)@)),
        total_count(stats_of(old(extensions)@)) + files.len() <= usize::MAX,
        total_bytes(stats_of(old(extensions)@)) + size_sum(files_of(files@)) <= u64::MAX,
    ensures
        stats_of(final(extensions)@) == merge(stats_of(old(extensions)@), file_stats(files_of(files@))),
        names_unique(stats_of(final(extensions)@)),
{
    let ghost s0 = stats_of(extensions@);
    let ghost fs = files_of(files@);
    let mut i: usize = 0;
    assert(file_stats(fs.subrange(0, 0)) =~= Seq::<ExtStat>::empty());
    while i < files.len()
        invariant
            s0 == stats_of(old(extensions)@),
            fs == files_of(files@),
            i <= files.len(),
            stats_of(extensions@) == merge(s0, file_stats(fs.subrange(0, i as int))),
            names_unique(s0),
            total_count(s0) + files.len() <= usize::MAX,
            total_bytes(s0) + size_sum(fs) <= u64::MAX,
        decreases files.len() - i,
    {
        proof {
            let pre = fs.subrange(0, i as int);
            lemma_merge(s0, file_stats(pre), None);
            lemma_file_stats_count(pre);
            lemma_file_stats_step(fs, i as int);
            let rest = fs.subrange(i as int, fs.len() as int);
            assert(fs =~= fs.subrange(0, i + 1) + fs.subrange(i + 1, fs.len() as int));
            lemma_size_sum_concat(fs.subrange(0, i + 1), fs.subrange(i + 1, fs.len() as int));
            assert(fs.subrange(0, i + 1) =~= pre.push(fs[i as int]));
            lemma_size_sum_concat(pre, seq![fs[i as int]]);
            assert(pre.push(fs[i as int]) =~= pre + seq![fs[i as int]]);
            assert(file_stats(seq![fs[i as int]]) =~= seq![file_stat(fs[i as int])]);
            assert(seq![file_stat(fs[i as int])].drop_last() =~= Seq::<ExtStat>::empty());
        }
        add_file(&files[i], extensions);
        proof {
            let pre = fs.subrange(0, i as int);
            let x = file_stat(fs[i as int]);
            assert(file_stats(pre).push(x).drop_last() =~= file_stats(pre));
            assert(merge(s0, file_stats(pre).push(x)) == add_stat(merge(s0, file_stats(pre)), x));
        }
        i += 1;
    }
    assert(fs.subrange(0, i as int) =~= fs);
    proof {
        lemma_merge(s0, file_stats(fs), None);
    }
}

/// Folds every file of `l`, at any depth, into `extensions`.
fn fold_all(l: &Listing, extensions: &mut Vec<Extension>)
    requires
        names_unique(stats_of(old(extensions)@)),
        total_count(stats_of(old(extensions)@)) + all_files(l@).len() <= usize::MAX,
        total_bytes(stats_of(old(extensions)@)) + size_sum(all_files(l@)) <= u64::MAX,
    ensures
        stats_of(final(extensions)@) == merge(stats_of(old(extensions)@), file_stats(all_files(l@))),
        names_unique(stats_of(final(extensions)@)),
    decreases l,
{
    let ghost s0 = stats_of(extensions@);
    let ghost t = l@;
    proof {
        lemma_files_prefix_bound(t, t.files.len() as int);
        assert(t.files.subrange(0, t.files.len() as int) =~= t.files);
    }
    fold_files(&l.files, extensions);
    assert(t.dirs.subrange(0, 0) =~= Seq::<ListingTree>::empty());
    assert(t.files + all_files_in(t.dirs.subrange(0, 0)) =~= t.files);
    let mut j: usize = 0;
    while j < l.dirs.len()
        invariant
            s0 == stats_of(old(extensions)@),
            t == l@,
            j <= l.dirs.len(),
            stats_of(extensions@) == merge(s0, file_stats(t.files + all_files_in(t.dirs.subrange(0, j as int)))),
            names_unique(s0),
            total_count(s0) + all_files(t).len() <= usize::MAX,
            total_bytes(s0) + size_sum(all_files(t)) <= u64::MAX,
        decreases l.dirs.len() - j,
    {
        let ghost pre = t.files + all_files_in(t.dirs.subrange(0, j as int));
        let ghost here = all_files(t.dirs[j as int]);
        proof {
            lemma_all_files_in_step(t.dirs, j as int);
            assert(t.files + all_files_in(t.dirs.subrange(0, j + 1)) =~= pre + here);
            lemma_all_files_prefix_bound(t, j + 1);
            lemma_merge(s0, file_stats(pre), None);
            lemma_file_stats_count(pre);
            lemma_size_sum_concat(pre, here);
            lemma_merge_concat(s0, file_stats(pre), file_stats(here));
            lemma_file_stats_concat(pre, here);
        }
        fold_all(&l.dirs[j], extensions);
        j += 1;
    }
    assert(t.dirs.subrange(0, j as int) =~= t.dirs);
    proof {
        lemma_merge(s0, file_stats(all_files(t)), None);
    }
}

/// The statistics of a list of files hold each file once.
pub proof fn lemma_aggregate(files: Seq<FileModel>)
    ensures
        names_unique(aggregate(files)),
        counts_positive(aggregate(files)),
        total_count(aggregate(files)) == files.len(),
        total_bytes(aggregate(files)) == size_sum(files),
{
    lemma_merge(Seq::empty(), file_stats(files), None);
    lemma_file_stats_count(files);
    assert(total_count(Seq::<ExtStat>::empty()) == 0);
    assert(total_bytes(Seq::<ExtStat>::empty()) == 0);
}

impl Directory {
    /// The invariant of the whole tree: every node well-formed, and its
    /// files countable in a `usize` and its bytes in a `u64`.
    pub open spec fn wf(&self) -> bool {
        &&& well_formed(self@)
        &&& tree_count(self@) <= usize::MAX
        &&& tree_bytes(self@) <= u64::MAX
    }

    /// Scans listing `listing` as the node at `depth` under depth ceiling
    /// `max_depth`; refused when the listing holds more files or bytes than
    /// the statistics can count.
    pub fn new(listing: &Listing, depth: usize, max_depth: usize) -> (r: Result<Self, ScanError>)
        ensures
            r is Ok <==> listing_fits(listing@),
            r matches Ok(d) ==> {
                &&& scanned(listing@, depth as nat, max_depth as nat, d@)
                &&& d.wf()
                &&& tree_count(d@) == all_files(listing@).len()
                &&& tree_bytes(d@) == size_sum(all_files(listing@))
                &&& sibling_names_distinct(listing@) ==> names_increase(d@)
            },
            r matches Err(e) ==> e == ScanError::TooLarge,
    {
        match listing_totals(listing) {
            None => Err(ScanError::TooLarge),
            Some(_) => {
                let d = Self::scan(listing, depth, max_depth);
                proof {
                    if sibling_names_distinct(listing@) {
                        lemma_scanned_names_increase(listing@, depth as nat, max_depth as nat, d@);
                    }
                }
                Ok(d)
            },
        }
    }

    /// Scans a listing whose files fit the counters.
    fn scan(l: &Listing, depth: usize, max_depth: usize) -> (r: Self)
        requires
            listing_fits(l@),
        ensures
            scanned(l@, depth as nat, max_depth as nat, r@),
            well_formed(r@),
            tree_count(r@) == all_files(l@).len(),
            tree_bytes(r@) == size_sum(all_files(l@)),
        decreases l,
    {
        let ghost t = l@;
        let mut extensions: Vec<Extension> = Vec::new();
        assert(stats_of(extensions@) =~= Seq::<ExtStat>::empty());
        if depth >= max_depth {
            fold_all(l, &mut extensions);
            let r = Directory {
                root: l.path.clone(),
                extensions,
                subdirectories: Vec::new(),
                depth,
            };
            proof {
                lemma_aggregate(all_files(t));
                assert(r@.subs =~= Seq::<DirTree>::empty());
            }
            return r;
        }
        proof {
            lemma_files_prefix_bound(t, t.files.len() as int);
            assert(t.files.subrange(0, t.files.len() as int) =~= t.files);
        }
        fold_files(&l.files, &mut extensions);
        let mut built: Vec<Directory> = Vec::new();
        let mut j: usize = 0;
        assert(t.dirs.subrange(0, 0) =~= Seq::<ListingTree>::empty());
        while j < l.dirs.len()
            invariant
                t == l@,
                listing_fits(t),
                depth < max_depth,
                j <= l.dirs.len(),
                built.len() == j,
                forall|a: int|
                    0 <= a < j ==> {
                        &&& scanned(t.dirs[a], (depth + 1) as nat, max_depth as nat, #[trigger] trees_of(built@)[a])
                        &&& well_formed(trees_of(built@)[a])
                    },
                subs_sum(trees_of(built@), Measure::Files) == all_files_in(t.dirs.subrange(0, j as int)).len(),
                subs_sum(trees_of(built@), Measure::Bytes) == size_sum(all_files_in(t.dirs.subrange(0, j as int))),
            decreases l.dirs.len() - j,
        {
            proof {
                lemma_all_files_prefix_bound(t, j + 1);
            }
            let child = Self::scan(&l.dirs[j], depth + 1, max_depth);
            let ghost b0 = trees_of(built@);
            built.push(child);
            proof {
                assert(trees_of(built@) =~= b0.push(child@));
                lemma_subs_sum_push(b0, child@, Measure::Files);
                lemma_subs_sum_push(b0, child@, Measure::Bytes);
                lemma_all_files_in_step(t.dirs, j as int);
                lemma_size_sum_concat(all_files_in(t.dirs.subrange(0, j as int)), all_files(t.dirs[j as int]));
            }
            j += 1;
        }
        assert(t.dirs.subrange(0, j as int) =~= t.dirs);
        let ghost input = trees_of(built@);
        let subdirectories = sort_directories(built);
        let r = Directory { root: l.path.clone(), extensions, subdirectories, depth };
        proof {
            let out = trees_of(r.subdirectories@);
            assert(r@.subs =~= out);
            let before = |a: DirTree, b: DirTree| dir_before(a, b);
            lemma_dir_order();
            let p = choose|p: Seq<int>|
                {
                    &&& is_arrangement(p, input.len())
                    &&& out.len() == input.len()
                    &&& forall|i: int| 0 <= i < out.len() ==> out[i] == input[#[trigger] p[i]]
                    &&& ordered_stably(out, p, before)
                };
            assert forall|i: int| 0 <= i < out.len() implies 0 <= #[trigger] p[i] < t.dirs.len() && scanned(
                t.dirs[p[i]],
                (depth + 1) as nat,
                max_depth as nat,
                out[i],
            ) && well_formed(out[i]) by {
                assert(out[i] == input[p[i]]);
            }
            assert forall|i: int, k: int| 0 <= i < k < out.len() implies !dir_before(
                #[trigger] out[k],
                #[trigger] out[i],
            ) by {
                assert(before(out[i], out[k]) || (!before(out[k], out[i]) && p[i] < p[k]));
            }
            lemma_aggregate(t.files);
            lemma_size_sum_concat(t.files, all_files_in(t.dirs));
            assert(tree_count(r@) == total_count(aggregate(t.files)) + subs_sum(out, Measure::Files));
            assert(tree_bytes(r@) == total_bytes(aggregate(t.files)) + subs_sum(out, Measure::Bytes));
            assert(names_unique(r@.exts));
            assert(counts_positive(r@.exts));
            assert forall|i: int| 0 <= i < r@.subs.len() implies (#[trigger] r@.subs[i]).depth == r@.depth + 1
                && well_formed(r@.subs[i]) by {
                assert(out[i] == input[p[i]]);
                assert(0 <= p[i] < t.dirs.len());
            }
        }
        r
    }
}

/// The text of an optional extension given by reference.
pub open spec fn query_view(o: Option<&str>) -> Option<Seq<char>> {
    match o {
        Some(s) => Some(s@),
        None => None,
    }
}

impl Directory {
    /// The path of the directory.
    pub fn root(&self) -> (r: &str)
        ensures
            r@ == self@.root,
    {
        self.root.as_str()
    }

    /// The depth of the directory below the scan root.
    pub fn depth(&self) -> (r: usize)
        ensures
            r == self@.depth,
    {
        self.depth
    }

    /// The directory's extension statistics, in their current order.
    pub fn extensions(&self) -> (r: &Vec<Extension>)
        ensures
            stats_of(r@) == self@.exts,
    {
        &self.extensions
    }

    /// The directory's subdirectories, ordered by name.
    pub fn subdirectories(&self) -> (r: &Vec<Directory>)
        ensures
            trees_of(r@) == self@.subs,
    {
        assert(trees_of(self.subdirectories@) =~= self@.subs);
        &self.subdirectories
    }

    /// Index of the entry for `extension`, if there is one.
    fn find(&self, extension: Option<&str>) -> (r: Option<usize>)
        ensures
            r matches Some(i) ==> i < self@.exts.len() && self@.exts[i as int].name == query_view(extension),
            r is None ==> forall|j: int| 0 <= j < self@.exts.len() ==> self@.exts[j].name != query_view(extension),
    {
        let mut i: usize = 0;
        while i < self.extensions.len()
            invariant
                i <= self.extensions.len(),
                forall|j: int| 0 <= j < i ==> self@.exts[j].name != query_view(extension),
            decreases self.extensions.len() - i,
        {
            let found = match (&self.extensions[i].name, extension) {
                (Some(a), Some(b)) => crate::text::same_text(a.as_str(), b),
                (None, None) => true,
                _ => false,
            };
            assert(self@.exts[i as int] == self.extensions@[i as int]@);
            if found {
                return Some(i);
            }
            i += 1;
        }
        None
    }

    /// Number of files with `extension` (`None`: without one) recorded in
    /// this directory's own statistics.
    pub fn count(&self, extension: Option<&str>) -> (r: usize)
        requires
            self.wf(),
        ensures
            r == count_of(self@.exts, query_view(extension)),
    {
        match self.find(extension) {
            Some(i) => {
                proof {
                    lemma_entry_totals(self@.exts, i as int);
                    assert(self@.exts[i as int] == self.extensions@[i as int]@);
                }
                self.extensions[i].count
            },
            None => {
                proof {
                    lemma_absent_totals(self@.exts, query_view(extension));
                }
                0
            },
        }
    }

    /// Total size of the files with `extension` recorded in this directory's
    /// own statistics, `None` where it records none.
    pub fn size(&self, extension: Option<&str>) -> (r: Option<u64>)
        requires
            self.wf(),
        ensures
            r is Some <==> has_name(self@.exts, query_view(extension)),
            r matches Some(b) ==> b == bytes_of(self@.exts, query_view(extension)),
    {
        match self.find(extension) {
            Some(i) => {
                proof {
                    lemma_entry_totals(self@.exts, i as int);
                    assert(self@.exts[i as int] == self.extensions@[i as int]@);
                }
                Some(self.extensions[i].total_size_bytes)
            },
            None => None,
        }
    }
}

} // verus!
