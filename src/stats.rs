//! Per-extension statistics: how a file name is classified, and how files and
//! aggregates are folded into a node's list of statistics.
use vstd::prelude::*;
use vstd::string::*;

verus! {

/// One extension's aggregate as a mathematical value: the extension (`None`
/// for files that have none), how many files carry it, and their total size.
pub struct ExtStat {
    pub name: Option<Seq<char>>,
    pub count: nat,
    pub bytes: nat,
}

/// The text of an optional name.
pub open spec fn name_view(o: Option<String>) -> Option<Seq<char>> {
    match o {
        Some(s) => Some(s@),
        None => None,
    }
}

/// Position `k` of `name` holds the dot that starts its extension: the first
/// dot after the first character (a leading dot marks a hidden file, not an
/// extension).
pub open spec fn is_ext_dot(name: Seq<char>, k: int) -> bool {
    &&& 1 <= k < name.len()
    &&& name[k] == '.'
    &&& forall|j: int| 1 <= j < k ==> name[j] != '.'
}

/// The extension of a file name: everything after its first dot that is not
/// the leading character, so that `a.tar.gz` has the single extension
/// `tar.gz`, while `.profile` and `README` have none.
pub open spec fn ext_of(name: Seq<char>) -> Option<Seq<char>> {
    if exists|k: int| is_ext_dot(name, k) {
        let k = choose|k: int| is_ext_dot(name, k);
        Some(name.subrange(k + 1, name.len() as int))
    } else {
        None
    }
}

/// `s` holds an entry for extension `x`.
pub open spec fn has_name(s: Seq<ExtStat>, x: Option<Seq<char>>) -> bool {
    exists|i: int| 0 <= i < s.len() && s[i].name == x
}

/// No two entries of `s` are for the same extension.
pub open spec fn names_unique(s: Seq<ExtStat>) -> bool {
    forall|i: int, j: int|
        0 <= i < s.len() && 0 <= j < s.len() && i != j ==> s[i].name != s[j].name
}

/// Every entry of `s` stands for at least one file.
pub open spec fn counts_positive(s: Seq<ExtStat>) -> bool {
    forall|i: int| 0 <= i < s.len() ==> s[i].count >= 1
}

/// Folds the aggregate `e` into `s`: the entry for the same extension grows by
/// `e`'s count and bytes, or `e` is appended when there is none.
pub open spec fn add_stat(s: Seq<ExtStat>, e: ExtStat) -> Seq<ExtStat> {
    if has_name(s, e.name) {
        let i = choose|i: int| 0 <= i < s.len() && s[i].name == e.name;
        s.update(i, ExtStat { name: e.name, count: s[i].count + e.count, bytes: s[i].bytes + e.bytes })
    } else {
        s.push(e)
    }
}

/// Folds every entry of `t`, in order, into `s`.
pub open spec fn merge(s: Seq<ExtStat>, t: Seq<ExtStat>) -> Seq<ExtStat>
    decreases t.len(),
{
    if t.len() == 0 {
        s
    } else {
        add_stat(merge(s, t.drop_last()), t.last())
    }
}

/// Number of files that the entries of `s` stand for.
pub open spec fn total_count(s: Seq<ExtStat>) -> nat
    decreases s.len(),
{
    if s.len() == 0 {
        0
    } else {
        total_count(s.drop_last()) + s.last().count
    }
}

/// Number of bytes that the entries of `s` stand for.
pub open spec fn total_bytes(s: Seq<ExtStat>) -> nat
    decreases s.len(),
{
    if s.len() == 0 {
        0
    } else {
        total_bytes(s.drop_last()) + s.last().bytes
    }
}

/// Number of files with extension `x` that the entries of `s` stand for.
pub open spec fn count_of(s: Seq<ExtStat>, x: Option<Seq<char>>) -> nat
    decreases s.len(),
{
    if s.len() == 0 {
        0
    } else {
        count_of(s.drop_last(), x) + if s.last().name == x { s.last().count } else { 0 }
    }
}

/// Number of bytes in files with extension `x` that the entries of `s` stand for.
pub open spec fn bytes_of(s: Seq<ExtStat>, x: Option<Seq<char>>) -> nat
    decreases s.len(),
{
    if s.len() == 0 {
        0
    } else {
        bytes_of(s.drop_last(), x) + if s.last().name == x { s.last().bytes } else { 0 }
    }
}

/// One extension's aggregate within a directory.
pub struct Extension {
    pub(crate) name: Option<String>,
    pub(crate) count: usize,
    pub(crate) total_size_bytes: u64,
}

impl View for Extension {
    type V = ExtStat;

    open(crate) spec fn view(&self) -> ExtStat {
        ExtStat {
            name: name_view(self.name),
            count: self.count as nat,
            bytes: self.total_size_bytes as nat,
        }
    }
}

/// The aggregates of a list of extensions.
pub open spec fn stats_of(v: Seq<Extension>) -> Seq<ExtStat> {
    v.map_values(|e: Extension| e@)
}

impl Extension {
    /// The extension, `None` for files without one.
    pub fn name(&self) -> (r: &Option<String>)
        ensures
            name_view(*r) == self@.name,
    {
        &self.name
    }

    /// How many files carry this extension.
    pub fn count(&self) -> (r: usize)
        ensures
            r == self@.count,
    {
        self.count
    }

    /// Total size in bytes of the files that carry this extension.
    pub fn total_size_bytes(&self) -> (r: u64)
        ensures
            r == self@.bytes,
    {
        self.total_size_bytes
    }
}

/// Any two positions that start the extension of `name` are one.
pub proof fn lemma_ext_dot_unique(name: Seq<char>, a: int, b: int)
    requires
        is_ext_dot(name, a),
        is_ext_dot(name, b),
    ensures
        a == b,
{
}

/// The extension of a file name, as `ext_of` describes it.
pub fn extension_of(name: &str) -> (r: Option<String>)
    ensures
        name_view(r) == ext_of(name@),
{
    let len = name.unicode_len();
    let mut i: usize = 1;
    while i < len
        invariant
            len == name@.len(),
            1 <= i,
            forall|j: int| 1 <= j < i && j < len ==> name@[j] != '.',
        decreases len - i,
    {
        if name.get_char(i) == '.' {
            assert(is_ext_dot(name@, i as int));
            proof {
                let k = choose|k: int| is_ext_dot(name@, k);
                lemma_ext_dot_unique(name@, k, i as int);
            }
            let rest = name.substring_char(i + 1, len);
            return Some(String::from_str(rest));
        }
        i += 1;
    }
    assert(!exists|k: int| is_ext_dot(name@, k));
    None
}

/// Whether two optional names are the same text.
fn same_name(a: &Option<String>, b: &Option<String>) -> (r: bool)
    ensures
        r == (name_view(*a) == name_view(*b)),
{
    match (a, b) {
        (Some(x), Some(y)) => *x == *y,
        (None, None) => true,
        _ => false,
    }
}

/// Replacing one entry changes each total by the difference of the two.
pub proof fn lemma_totals_update(s: Seq<ExtStat>, i: int, v: ExtStat, x: Option<Seq<char>>)
    requires
        0 <= i < s.len(),
    ensures
        total_count(s.update(i, v)) + s[i].count == total_count(s) + v.count,
        total_bytes(s.update(i, v)) + s[i].bytes == total_bytes(s) + v.bytes,
        count_of(s.update(i, v), x) + (if s[i].name == x { s[i].count } else { 0 })
            == count_of(s, x) + (if v.name == x { v.count } else { 0 }),
        bytes_of(s.update(i, v), x) + (if s[i].name == x { s[i].bytes } else { 0 })
            == bytes_of(s, x) + (if v.name == x { v.bytes } else { 0 }),
    decreases s.len(),
{
    let u = s.update(i, v);
    if i == s.len() - 1 {
        assert(u.drop_last() =~= s.drop_last());
    } else {
        assert(u.drop_last() =~= s.drop_last().update(i, v));
        lemma_totals_update(s.drop_last(), i, v, x);
    }
}

/// No entry stands for more files or bytes than all of them together.
pub proof fn lemma_entry_within_totals(s: Seq<ExtStat>, i: int)
    requires
        0 <= i < s.len(),
    ensures
        s[i].count <= total_count(s),
        s[i].bytes <= total_bytes(s),
    decreases s.len(),
{
    if i < s.len() - 1 {
        lemma_entry_within_totals(s.drop_last(), i);
    }
}

/// What folding one aggregate into a list does to its totals and entries.
pub proof fn lemma_add_stat(s: Seq<ExtStat>, e: ExtStat, x: Option<Seq<char>>)
    requires
        names_unique(s),
    ensures
        names_unique(add_stat(s, e)),
        total_count(add_stat(s, e)) == total_count(s) + e.count,
        total_bytes(add_stat(s, e)) == total_bytes(s) + e.bytes,
        count_of(add_stat(s, e), x) == count_of(s, x) + if e.name == x { e.count } else { 0 },
        bytes_of(add_stat(s, e), x) == bytes_of(s, x) + if e.name == x { e.bytes } else { 0 },
        has_name(add_stat(s, e), x) == (has_name(s, x) || e.name == x),
        counts_positive(s) && e.count >= 1 ==> counts_positive(add_stat(s, e)),
{
    let r = add_stat(s, e);
    if has_name(s, e.name) {
        let i = choose|i: int| 0 <= i < s.len() && s[i].name == e.name;
        let v = ExtStat { name: e.name, count: s[i].count + e.count, bytes: s[i].bytes + e.bytes };
        lemma_totals_update(s, i, v, x);
        if has_name(s, x) {
            let j = choose|j: int| 0 <= j < s.len() && s[j].name == x;
            assert(r[j].name == x);
        }
        if has_name(r, x) {
            let j = choose|j: int| 0 <= j < r.len() && r[j].name == x;
            assert(s[j].name == x);
        }
    } else {
        assert(r.drop_last() =~= s);
        if has_name(s, x) {
            let j = choose|j: int| 0 <= j < s.len() && s[j].name == x;
            assert(r[j].name == x);
        }
        if e.name == x {
            assert(r[s.len() as int].name == x);
        }
        if has_name(r, x) {
            let j = choose|j: int| 0 <= j < r.len() && r[j].name == x;
            if j < s.len() {
                assert(s[j].name == x);
            }
        }
    }
}

/// What folding a list of aggregates into another does to its totals and entries.
pub proof fn lemma_merge(s: Seq<ExtStat>, t: Seq<ExtStat>, x: Option<Seq<char>>)
    requires
        names_unique(s),
    ensures
        names_unique(merge(s, t)),
        total_count(merge(s, t)) == total_count(s) + total_count(t),
        total_bytes(merge(s, t)) == total_bytes(s) + total_bytes(t),
        count_of(merge(s, t), x) == count_of(s, x) + count_of(t, x),
        bytes_of(merge(s, t), x) == bytes_of(s, x) + bytes_of(t, x),
        counts_positive(s) && counts_positive(t) ==> counts_positive(merge(s, t)),
    decreases t.len(),
{
    if t.len() > 0 {
        lemma_merge(s, t.drop_last(), x);
        lemma_add_stat(merge(s, t.drop_last()), t.last(), x);
        if counts_positive(t) {
            assert(counts_positive(t.drop_last()));
        }
    }
}

/// Folds one aggregate into `extensions`, as `add_stat` describes.
pub(crate) fn absorb(extensions: &mut Vec<Extension>, name: Option<String>, count: usize, bytes: u64)
    requires
        names_unique(stats_of(old(extensions)@)),
        total_count(stats_of(old(extensions)@)) + count <= usize::MAX,
        total_bytes(stats_of(old(extensions)@)) + bytes <= u64::MAX,
    ensures
        stats_of(final(extensions)@) == add_stat(
            stats_of(old(extensions)@),
            ExtStat { name: name_view(name), count: count as nat, bytes: bytes as nat },
        ),
{
    let ghost s = stats_of(extensions@);
    let ghost e = ExtStat { name: name_view(name), count: count as nat, bytes: bytes as nat };
    let mut i: usize = 0;
    while i < extensions.len()
        invariant
            s == stats_of(extensions@),
            s == stats_of(old(extensions)@),
            names_unique(s),
            total_count(s) + count <= usize::MAX,
            total_bytes(s) + bytes <= u64::MAX,
            e == (ExtStat { name: name_view(name), count: count as nat, bytes: bytes as nat }),
            i <= extensions.len(),
            forall|j: int| 0 <= j < i ==> s[j].name != e.name,
        decreases extensions.len() - i,
    {
        if same_name(&extensions[i].name, &name) {
            proof {
                lemma_entry_within_totals(s, i as int);
                let k = choose|k: int| 0 <= k < s.len() && s[k].name == e.name;
                assert(k == i);
            }
            let c = extensions[i].count + count;
            let b = extensions[i].total_size_bytes + bytes;
            extensions.set(i, Extension { name, count: c, total_size_bytes: b });
            assert(stats_of(extensions@) =~= add_stat(s, e));
            return;
        }
        i += 1;
    }
    extensions.push(Extension { name, count, total_size_bytes: bytes });
    assert(stats_of(extensions@) =~= s.push(e));
}

/// Inserting an entry anywhere adds its count and bytes to the totals.
pub proof fn lemma_totals_insert(s: Seq<ExtStat>, k: int, x: ExtStat)
    requires
        0 <= k <= s.len(),
    ensures
        total_count(s.insert(k, x)) == total_count(s) + x.count,
        total_bytes(s.insert(k, x)) == total_bytes(s) + x.bytes,
    decreases s.len(),
{
    let u = s.insert(k, x);
    if k == s.len() {
        assert(u.drop_last() =~= s);
    } else {
        assert(u.drop_last() =~= s.drop_last().insert(k, x));
        lemma_totals_insert(s.drop_last(), k, x);
    }
}

/// With one entry per extension, the totals for an extension are its entry's.
pub proof fn lemma_entry_totals(s: Seq<ExtStat>, i: int)
    requires
        names_unique(s),
        0 <= i < s.len(),
    ensures
        count_of(s, s[i].name) == s[i].count,
        bytes_of(s, s[i].name) == s[i].bytes,
    decreases s.len(),
{
    if i < s.len() - 1 {
        lemma_entry_totals(s.drop_last(), i);
        assert(s.last().name != s[i].name);
    } else {
        lemma_absent_totals(s.drop_last(), s[i].name);
    }
}

/// An extension without an entry has no files and no bytes.
pub proof fn lemma_absent_totals(s: Seq<ExtStat>, x: Option<Seq<char>>)
    requires
        forall|j: int| 0 <= j < s.len() ==> s[j].name != x,
    ensures
        count_of(s, x) == 0,
        bytes_of(s, x) == 0,
    decreases s.len(),
{
    if s.len() > 0 {
        lemma_absent_totals(s.drop_last(), x);
    }
}

} // verus!
