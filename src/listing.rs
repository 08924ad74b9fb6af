//! What a scan reads from disk: each directory's path, its regular files with
//! their sizes, and its subdirectories. Symbolic links are left out by
//! whoever reads the disk.
use vstd::prelude::*;
use crate::stats::{ExtStat, ext_of, merge, total_bytes, total_count};

verus! {

/// A regular file: its name within its directory and its size in bytes.
pub struct FileEntry {
    pub name: String,
    pub size: u64,
}

/// A directory as read from disk. `path` is the directory's path; each
/// entry of `dirs` is a subdirectory whose path is this path joined with its
/// name, so that the last component of a subdirectory's path is its name.
/// A scan keeps these paths as the directories' roots.
pub struct Listing {
    pub path: String,
    pub files: Vec<FileEntry>,
    pub dirs: Vec<Listing>,
}

/// A file as a mathematical value.
pub struct FileModel {
    pub name: Seq<char>,
    pub size: nat,
}

/// A directory listing as a mathematical value.
pub struct ListingTree {
    pub path: Seq<char>,
    pub files: Seq<FileModel>,
    pub dirs: Seq<ListingTree>,
}

impl View for FileEntry {
    type V = FileModel;

    open spec fn view(&self) -> FileModel {
        FileModel { name: self.name@, size: self.size as nat }
    }
}

/// The model of a listing, subdirectories included.
pub open spec fn listing_tree(l: &Listing) -> ListingTree
    decreases l,
{
    ListingTree {
        path: l.path@,
        files: l.files@.map_values(|f: FileEntry| f@),
        dirs: Seq::new(
            l.dirs@.len(),
            |i: int|
                if 0 <= i < l.dirs@.len() {
                    listing_tree(&l.dirs@[i])
                } else {
                    ListingTree { path: Seq::empty(), files: Seq::empty(), dirs: Seq::empty() }
                },
        ),
    }
}

impl View for Listing {
    type V = ListingTree;

    open spec fn view(&self) -> ListingTree {
        listing_tree(self)
    }
}

/// The aggregate that one file contributes.
pub open spec fn file_stat(f: FileModel) -> ExtStat {
    ExtStat { name: ext_of(f.name), count: 1, bytes: f.size }
}

/// The aggregates that the files contribute, one each.
pub open spec fn file_stats(files: Seq<FileModel>) -> Seq<ExtStat> {
    files.map_values(|f: FileModel| file_stat(f))
}

/// The per-extension statistics of a list of files: one entry per extension,
/// in the order in which each extension first occurs.
pub open spec fn aggregate(files: Seq<FileModel>) -> Seq<ExtStat> {
    merge(Seq::empty(), file_stats(files))
}

/// Every file of a listing, its own first, then those of each subdirectory in turn.
pub open spec fn all_files(l: ListingTree) -> Seq<FileModel>
    decreases l, 1nat,
{
    l.files + all_files_in(l.dirs)
}

/// Every file of a list of listings, in order.
pub open spec fn all_files_in(s: Seq<ListingTree>) -> Seq<FileModel>
    decreases s, 0nat,
{
    if s.len() == 0 {
        Seq::empty()
    } else {
        all_files_in(s.subrange(0, s.len() - 1)) + all_files(s[s.len() - 1])
    }
}

/// Total size of a list of files.
pub open spec fn size_sum(files: Seq<FileModel>) -> nat {
    total_bytes(file_stats(files))
}

/// Every file of the listing can be counted in a `usize` and its bytes in a `u64`.
pub open spec fn listing_fits(l: ListingTree) -> bool {
    &&& all_files(l).len() <= usize::MAX
    &&& size_sum(all_files(l)) <= u64::MAX
}

/// Each file contributes one to the count.
pub proof fn lemma_file_stats_count(files: Seq<FileModel>)
    ensures
        total_count(file_stats(files)) == files.len(),
    decreases files.len(),
{
    if files.len() > 0 {
        assert(file_stats(files).drop_last() =~= file_stats(files.drop_last()));
        lemma_file_stats_count(files.drop_last());
    }
}

/// Totals over a concatenation add up.
pub proof fn lemma_totals_concat(a: Seq<ExtStat>, b: Seq<ExtStat>)
    ensures
        total_count(a + b) == total_count(a) + total_count(b),
        total_bytes(a + b) == total_bytes(a) + total_bytes(b),
    decreases b.len(),
{
    if b.len() > 0 {
        assert((a + b).drop_last() =~= a + b.drop_last());
        lemma_totals_concat(a, b.drop_last());
    }
}

/// Folding a concatenation is folding one part after the other.
pub proof fn lemma_merge_concat(s: Seq<ExtStat>, a: Seq<ExtStat>, b: Seq<ExtStat>)
    ensures
        merge(s, a + b) == merge(merge(s, a), b),
    decreases b.len(),
{
    if b.len() == 0 {
        assert(a + b =~= a);
    } else {
        assert((a + b).drop_last() =~= a + b.drop_last());
        lemma_merge_concat(s, a, b.drop_last());
    }
}

/// The stats of a concatenation are the concatenated stats.
pub proof fn lemma_file_stats_concat(a: Seq<FileModel>, b: Seq<FileModel>)
    ensures
        file_stats(a + b) == file_stats(a) + file_stats(b),
{
    assert(file_stats(a + b) =~= file_stats(a) + file_stats(b));
}

/// Totals of a listing, or `None` where the file count exceeds `usize` or the
/// byte count exceeds `u64`.
pub fn listing_totals(l: &Listing) -> (r: Option<(usize, u64)>)
    ensures
        r is Some <==> listing_fits(l@),
        r matches Some((c, b)) ==> c == all_files(l@).len() && b == size_sum(all_files(l@)),
    decreases l,
{
    let ghost t = l@;
    let mut count: usize = 0;
    let mut bytes: u64 = 0;
    let mut i: usize = 0;
    while i < l.files.len()
        invariant
            t == l@,
            i <= l.files.len(),
            count == i,
            bytes == size_sum(t.files.subrange(0, i as int)),
        decreases l.files.len() - i,
    {
        assert(t.files.subrange(0, i + 1).drop_last() =~= t.files.subrange(0, i as int));
        assert(file_stats(t.files.subrange(0, i + 1)).drop_last() =~= file_stats(t.files.subrange(0, i as int)));
        let s = l.files[i].size;
        if bytes > u64::MAX - s {
            proof {
                lemma_file_stats_concat(t.files, all_files_in(t.dirs));
                lemma_totals_concat(file_stats(t.files), file_stats(all_files_in(t.dirs)));
                lemma_file_stats_concat(t.files.subrange(0, i + 1), t.files.subrange(i + 1, t.files.len() as int));
                assert(t.files =~= t.files.subrange(0, i + 1) + t.files.subrange(i + 1, t.files.len() as int));
                lemma_totals_concat(file_stats(t.files.subrange(0, i + 1)), file_stats(t.files.subrange(i + 1, t.files.len() as int)));
            }
            return None;
        }
        bytes = bytes + s;
        count = count + 1;
        i += 1;
    }
    assert(t.files.subrange(0, i as int) =~= t.files);
    let mut j: usize = 0;
    while j < l.dirs.len()
        invariant
            t == l@,
            j <= l.dirs.len(),
            count == t.files.len() + all_files_in(t.dirs.subrange(0, j as int)).len(),
            bytes == size_sum(t.files + all_files_in(t.dirs.subrange(0, j as int))),
        decreases l.dirs.len() - j,
    {
        let sub = listing_totals(&l.dirs[j]);
        let ghost pre = t.files + all_files_in(t.dirs.subrange(0, j as int));
        let ghost here = all_files(t.dirs[j as int]);
        assert(t.dirs.subrange(0, j + 1).subrange(0, j as int) =~= t.dirs.subrange(0, j as int));
        assert(all_files_in(t.dirs.subrange(0, j + 1)) == all_files_in(t.dirs.subrange(0, j as int)) + here);
        assert(t.files + all_files_in(t.dirs.subrange(0, j + 1)) =~= pre + here);
        proof {
            lemma_file_stats_concat(pre, here);
            lemma_totals_concat(file_stats(pre), file_stats(here));
            lemma_file_stats_count(pre + here);
            lemma_file_stats_count(pre);
            lemma_file_stats_count(here);
            lemma_all_files_prefix_bound(t, j as int + 1);
        }
        match sub {
            None => {
                return None;
            },
            Some((c, b)) => {
                if c > usize::MAX - count || b > u64::MAX - bytes {
                    return None;
                }
                count = count + c;
                bytes = bytes + b;
            },
        }
        j += 1;
    }
    assert(t.dirs.subrange(0, j as int) =~= t.dirs);
    Some((count, bytes))
}

/// The files of the first `j` subdirectories are at most all of the listing's.
pub proof fn lemma_all_files_prefix_bound(t: ListingTree, j: int)
    requires
        0 <= j <= t.dirs.len(),
    ensures
        (t.files + all_files_in(t.dirs.subrange(0, j))).len() <= all_files(t).len(),
        size_sum(t.files + all_files_in(t.dirs.subrange(0, j))) <= size_sum(all_files(t)),
        all_files(t.dirs[j - 1]).len() <= all_files(t).len() <== 1 <= j,
        size_sum(all_files(t.dirs[j - 1])) <= size_sum(all_files(t)) <== 1 <= j,
    decreases t.dirs.len() - j,
{
    if j < t.dirs.len() {
        lemma_all_files_prefix_bound(t, j + 1);
        let pre = t.files + all_files_in(t.dirs.subrange(0, j));
        let here = all_files(t.dirs[j]);
        assert(t.dirs.subrange(0, j + 1).subrange(0, j) =~= t.dirs.subrange(0, j));
        assert(t.files + all_files_in(t.dirs.subrange(0, j + 1)) =~= pre + here);
        lemma_file_stats_concat(pre, here);
        lemma_totals_concat(file_stats(pre), file_stats(here));
    } else {
        assert(t.dirs.subrange(0, j) =~= t.dirs);
    }
    if 1 <= j {
        let pre = t.files + all_files_in(t.dirs.subrange(0, j - 1));
        let here = all_files(t.dirs[j - 1]);
        assert(t.dirs.subrange(0, j).subrange(0, j - 1) =~= t.dirs.subrange(0, j - 1));
        assert(t.files + all_files_in(t.dirs.subrange(0, j)) =~= pre + here);
        lemma_file_stats_concat(pre, here);
        lemma_totals_concat(file_stats(pre), file_stats(here));
    }
}

/// Sizes over a concatenation add up.
pub proof fn lemma_size_sum_concat(a: Seq<FileModel>, b: Seq<FileModel>)
    ensures
        size_sum(a + b) == size_sum(a) + size_sum(b),
{
    lemma_file_stats_concat(a, b);
    lemma_totals_concat(file_stats(a), file_stats(b));
}

/// The first `i` files of a listing are among all of its files.
pub proof fn lemma_files_prefix_bound(t: ListingTree, i: int)
    requires
        0 <= i <= t.files.len(),
    ensures
        i <= all_files(t).len(),
        size_sum(t.files.subrange(0, i)) <= size_sum(all_files(t)),
{
    let a = t.files.subrange(0, i);
    let b = t.files.subrange(i, t.files.len() as int);
    assert(t.files =~= a + b);
    lemma_size_sum_concat(a, b);
    lemma_size_sum_concat(t.files, all_files_in(t.dirs));
}

/// Extending a prefix of files by one folds in that file.
pub proof fn lemma_file_stats_step(files: Seq<FileModel>, i: int)
    requires
        0 <= i < files.len(),
    ensures
        file_stats(files.subrange(0, i + 1)) == file_stats(files.subrange(0, i)).push(file_stat(files[i])),
{
    assert(file_stats(files.subrange(0, i + 1)) =~= file_stats(files.subrange(0, i)).push(file_stat(files[i])));
}

/// The files of the first `j + 1` subdirectories are those of the first `j`,
/// then those of subdirectory `j`.
pub proof fn lemma_all_files_in_step(s: Seq<ListingTree>, j: int)
    requires
        0 <= j < s.len(),
    ensures
        all_files_in(s.subrange(0, j + 1)) == all_files_in(s.subrange(0, j)) + all_files(s[j]),
{
    assert(s.subrange(0, j + 1).subrange(0, j) =~= s.subrange(0, j));
}

} // verus!
