//! Orders: text order, the extension sorting policies, and what it means for
//! a list to be a stable sort of another.
use vstd::prelude::*;
use vstd::string::*;
use crate::stats::{ExtStat, Extension, counts_positive, lemma_totals_insert, names_unique, stats_of, total_bytes, total_count};

verus! {

/// How the extensions of each directory are ordered; directories themselves
/// are always ordered by name.
#[derive(Clone, Copy, Debug, PartialEq, Eq, Structural)]
pub enum ExtensionSortingMethod {
    /// By extension, comparing characters by code point (so upper case sorts
    /// before lower case); files without an extension come first. An
    /// extension such as `tar.gz` is compared as one word.
    Alphabetically,
    /// By number of files, largest first.
    FileCount,
    /// By total size in bytes, largest first.
    FileSize,
}

/// `a` comes before `b` in text order: character by character by code point,
/// and a proper prefix before the longer text.
pub open spec fn text_lt(a: Seq<char>, b: Seq<char>) -> bool
    decreases a.len(),
{
    if a.len() == 0 {
        b.len() > 0
    } else if b.len() == 0 {
        false
    } else if a[0] != b[0] {
        a[0] < b[0]
    } else {
        text_lt(a.drop_first(), b.drop_first())
    }
}

/// Text order on optional names, with the absent name first.
pub open spec fn name_lt(a: Option<Seq<char>>, b: Option<Seq<char>>) -> bool {
    match (a, b) {
        (None, Some(_)) => true,
        (Some(x), Some(y)) => text_lt(x, y),
        _ => false,
    }
}

/// `a` must come before `b` under sorting method `m`.
pub open spec fn ext_before(m: ExtensionSortingMethod, a: ExtStat, b: ExtStat) -> bool {
    match m {
        ExtensionSortingMethod::Alphabetically => name_lt(a.name, b.name),
        ExtensionSortingMethod::FileCount => a.count > b.count,
        ExtensionSortingMethod::FileSize => a.bytes > b.bytes,
    }
}

/// `p` lists each index below `n` exactly once.
pub open spec fn is_arrangement(p: Seq<int>, n: nat) -> bool {
    &&& p.len() == n
    &&& forall|i: int| 0 <= i < n ==> 0 <= #[trigger] p[i] < n
    &&& forall|i: int, j: int| 0 <= i < n && 0 <= j < n && i != j ==> p[i] != p[j]
}

/// Listing `out`, whose items came from positions `p` of some input, respects
/// `before`, and items that `before` does not tell apart keep their input order.
pub open spec fn ordered_stably<T>(out: Seq<T>, p: Seq<int>, before: spec_fn(T, T) -> bool) -> bool {
    forall|i: int, j: int|
        #![trigger out[i], out[j]]
        0 <= i < j < out.len() ==> before(out[i], out[j]) || (!before(out[j], out[i]) && p[i] < p[j])
}

/// `out` is `input` sorted stably by `before`.
pub open spec fn stable_sort_of<T>(input: Seq<T>, out: Seq<T>, before: spec_fn(T, T) -> bool) -> bool {
    exists|p: Seq<int>|
        {
            &&& is_arrangement(p, input.len())
            &&& out.len() == input.len()
            &&& forall|i: int| 0 <= i < out.len() ==> out[i] == input[#[trigger] p[i]]
            &&& ordered_stably(out, p, before)
        }
}

/// `before` orders by a key: it is asymmetric, and whatever comes after `b`
/// or ties with it comes after anything that precedes `b`.
pub open spec fn orders_by_key<T>(before: spec_fn(T, T) -> bool) -> bool {
    &&& forall|a: T, b: T| #[trigger] before(a, b) ==> !before(b, a)
    &&& forall|a: T, b: T, c: T| #[trigger] before(a, b) && !before(c, b) ==> #[trigger] before(a, c)
}

pub proof fn lemma_text_lt_irreflexive(a: Seq<char>)
    ensures
        !text_lt(a, a),
    decreases a.len(),
{
    if a.len() > 0 {
        lemma_text_lt_irreflexive(a.drop_first());
    }
}

pub proof fn lemma_text_lt_transitive(a: Seq<char>, b: Seq<char>, c: Seq<char>)
    requires
        text_lt(a, b),
        text_lt(b, c),
    ensures
        text_lt(a, c),
    decreases a.len(),
{
    if a.len() > 0 && b.len() > 0 && c.len() > 0 && a[0] == b[0] && b[0] == c[0] {
        lemma_text_lt_transitive(a.drop_first(), b.drop_first(), c.drop_first());
    }
}

pub proof fn lemma_text_lt_total(a: Seq<char>, b: Seq<char>)
    requires
        a != b,
    ensures
        text_lt(a, b) || text_lt(b, a),
    decreases a.len(),
{
    if a.len() > 0 && b.len() > 0 {
        if a[0] == b[0] {
            if a.drop_first() == b.drop_first() {
                assert(a =~= seq![a[0]] + a.drop_first());
                assert(b =~= seq![b[0]] + b.drop_first());
            }
            lemma_text_lt_total(a.drop_first(), b.drop_first());
        }
    } else if a.len() == 0 && b.len() == 0 {
        assert(a =~= b);
    }
}

/// Text order is asymmetric.
pub proof fn lemma_text_lt_asymmetric(a: Seq<char>, b: Seq<char>)
    requires
        text_lt(a, b),
    ensures
        !text_lt(b, a),
{
    if text_lt(b, a) {
        lemma_text_lt_transitive(a, b, a);
        lemma_text_lt_irreflexive(a);
    }
}

/// What comes after `b` in text order, or is `b`, comes after what precedes `b`.
pub proof fn lemma_text_lt_key(a: Seq<char>, b: Seq<char>, c: Seq<char>)
    requires
        text_lt(a, b),
        !text_lt(c, b),
    ensures
        text_lt(a, c),
{
    if c != b {
        lemma_text_lt_total(b, c);
        lemma_text_lt_transitive(a, b, c);
    }
}

/// Each sorting method orders by a key.
pub proof fn lemma_ext_order(m: ExtensionSortingMethod)
    ensures
        orders_by_key(|a: ExtStat, b: ExtStat| ext_before(m, a, b)),
{
    assert forall|a: ExtStat, b: ExtStat, c: ExtStat|
        #[trigger] ext_before(m, a, b) && !ext_before(m, c, b) implies #[trigger] ext_before(m, a, c) by {
        if m is Alphabetically {
            match (a.name, b.name, c.name) {
                (Some(x), Some(y), Some(z)) => {
                    lemma_text_lt_key(x, y, z);
                },
                _ => {},
            }
        }
    }
    assert forall|a: ExtStat, b: ExtStat| #[trigger] ext_before(m, a, b) implies !ext_before(m, b, a) by {
        if m is Alphabetically {
            match (a.name, b.name) {
                (Some(x), Some(y)) => {
                    lemma_text_lt_asymmetric(x, y);
                },
                _ => {},
            }
        }
    }
}

/// Inserting a new last-come item at the first position whose item it must
/// precede keeps a stable order.
pub proof fn lemma_insert_stable<T>(
    out: Seq<T>,
    p: Seq<int>,
    x: T,
    n: int,
    k: int,
    before: spec_fn(T, T) -> bool,
)
    requires
        orders_by_key(before),
        ordered_stably(out, p, before),
        p.len() == out.len(),
        forall|i: int| 0 <= i < p.len() ==> p[i] < n,
        0 <= k <= out.len(),
        forall|j: int| 0 <= j < k ==> !before(x, #[trigger] out[j]),
        k < out.len() ==> before(x, out[k]),
    ensures
        ordered_stably(out.insert(k, x), p.insert(k, n), before),
{
    let o2 = out.insert(k, x);
    let p2 = p.insert(k, n);
    assert forall|i: int| 0 <= i < o2.len() implies o2[i] == (if i < k { out[i] } else if i == k { x } else { out[i - 1] })
        && p2[i] == (if i < k { p[i] } else if i == k { n } else { p[i - 1] }) by {}
    assert forall|i: int, j: int| 0 <= i < j < o2.len() implies before(o2[i], o2[j]) || (!before(
        o2[j],
        o2[i],
    ) && p2[i] < p2[j]) by {
        if j < k {
            assert(before(out[i], out[j]) || (!before(out[j], out[i]) && p[i] < p[j]));
        } else if i < k && j == k {
            assert(!before(x, out[i]));
        } else if i == k && j > k {
            assert(o2[j] == out[j - 1]);
            if j - 1 > k {
                assert(before(out[k], out[j - 1]) || !before(out[j - 1], out[k]));
                if before(out[k], out[j - 1]) {
                    assert(!before(out[j - 1], out[k]));
                }
            }
            assert(before(x, out[k]) && !before(out[j - 1], out[k]) ==> before(x, out[j - 1]));
        } else if i < k && j > k {
            assert(before(out[i], out[j - 1]) || (!before(out[j - 1], out[i]) && p[i] < p[j - 1]));
        } else if i > k {
            assert(before(out[i - 1], out[j - 1]) || (!before(out[j - 1], out[i - 1]) && p[i - 1] < p[j - 1]));
        }
    }
}

/// Whether `a` comes before `b` in text order.
pub fn text_less(a: &str, b: &str) -> (r: bool)
    ensures
        r == text_lt(a@, b@),
{
    let la = a.unicode_len();
    let lb = b.unicode_len();
    let mut i: usize = 0;
    assert(a@.subrange(0, la as int) =~= a@);
    assert(b@.subrange(0, lb as int) =~= b@);
    while i < la && i < lb
        invariant
            la == a@.len(),
            lb == b@.len(),
            i <= la,
            i <= lb,
            text_lt(a@, b@) == text_lt(a@.subrange(i as int, la as int), b@.subrange(i as int, lb as int)),
        decreases la - i,
    {
        let ca = a.get_char(i);
        let cb = b.get_char(i);
        if ca != cb {
            return ca < cb;
        }
        assert(a@.subrange(i as int, la as int).drop_first() =~= a@.subrange(i + 1, la as int));
        assert(b@.subrange(i as int, lb as int).drop_first() =~= b@.subrange(i + 1, lb as int));
        i += 1;
    }
    i < lb
}

/// Whether `a` comes before `b` in name order, the absent name first.
pub fn name_less(a: &Option<String>, b: &Option<String>) -> (r: bool)
    ensures
        r == name_lt(crate::stats::name_view(*a), crate::stats::name_view(*b)),
{
    match (a, b) {
        (None, Some(_)) => true,
        (Some(x), Some(y)) => text_less(x.as_str(), y.as_str()),
        _ => false,
    }
}

/// Whether `a` must come before `b` under sorting method `m`.
pub fn ext_precedes(m: &ExtensionSortingMethod, a: &Extension, b: &Extension) -> (r: bool)
    ensures
        r == ext_before(*m, a@, b@),
{
    match m {
        ExtensionSortingMethod::Alphabetically => name_less(&a.name, &b.name),
        ExtensionSortingMethod::FileCount => a.count > b.count,
        ExtensionSortingMethod::FileSize => a.total_size_bytes > b.total_size_bytes,
    }
}

/// Inserting input item `i` at position `k` of a list arranged from the
/// first `i` input items arranges it from the first `i + 1`.
pub proof fn lemma_arrangement_insert<T>(input: Seq<T>, out: Seq<T>, p: Seq<int>, i: int, k: int)
    requires
        0 <= i < input.len(),
        0 <= k <= i,
        out.len() == i,
        p.len() == i,
        forall|a: int| 0 <= a < i ==> 0 <= #[trigger] p[a] < i,
        forall|a: int, b: int| 0 <= a < i && 0 <= b < i && a != b ==> p[a] != p[b],
        forall|a: int| 0 <= a < i ==> out[a] == input[#[trigger] p[a]],
    ensures
        forall|a: int| 0 <= a < i + 1 ==> 0 <= #[trigger] p.insert(k, i)[a] < i + 1,
        forall|a: int, b: int|
            0 <= a < i + 1 && 0 <= b < i + 1 && a != b ==> p.insert(k, i)[a] != p.insert(k, i)[b],
        forall|a: int| 0 <= a < i + 1 ==> out.insert(k, input[i])[a] == input[#[trigger] p.insert(k, i)[a]],
{
    let q = p.insert(k, i);
    let o = out.insert(k, input[i]);
    assert forall|a: int| 0 <= a < i + 1 implies q[a] == (if a < k { p[a] } else if a == k { i } else { p[a - 1] })
        && o[a] == (if a < k { out[a] } else if a == k { input[i] } else { out[a - 1] }) by {}
    assert forall|a: int| 0 <= a < i + 1 implies 0 <= #[trigger] q[a] < i + 1 by {
        if a < k {
            assert(q[a] == p[a]);
        } else if a > k {
            assert(q[a] == p[a - 1]);
        }
    }
    assert forall|a: int, b: int| 0 <= a < i + 1 && 0 <= b < i + 1 && a != b implies q[a] != q[b] by {
        let a0 = if a < k { a } else { a - 1 };
        let b0 = if b < k { b } else { b - 1 };
        if a != k && b != k {
            assert(q[a] == p[a0] && q[b] == p[b0]);
        } else if a == k {
            assert(q[b] == p[b0]);
        } else {
            assert(q[a] == p[a0]);
        }
    }
    assert forall|a: int| 0 <= a < i + 1 implies o[a] == input[#[trigger] q[a]] by {
        if a < k {
            assert(q[a] == p[a]);
        } else if a > k {
            assert(q[a] == p[a - 1]);
        }
    }
}

/// The first position of `out` whose entry `x` must precede under `m`, or its length.
fn ext_insertion_point(out: &Vec<Extension>, x: &Extension, m: ExtensionSortingMethod) -> (k: usize)
    ensures
        k <= out.len(),
        forall|j: int| 0 <= j < k ==> !ext_before(m, x@, #[trigger] stats_of(out@)[j]),
        k < out.len() ==> ext_before(m, x@, stats_of(out@)[k as int]),
{
    let mut k: usize = 0;
    while k < out.len()
        invariant
            k <= out.len(),
            forall|j: int| 0 <= j < k ==> !ext_before(m, x@, #[trigger] stats_of(out@)[j]),
        decreases out.len() - k,
    {
        if ext_precedes(&m, x, &out[k]) {
            return k;
        }
        k += 1;
    }
    k
}

/// Sorts extension entries stably under method `m`, by insertion.
pub(crate) fn sort_extensions(v: Vec<Extension>, m: ExtensionSortingMethod) -> (r: Vec<Extension>)
    ensures
        stable_sort_of(stats_of(v@), stats_of(r@), |a: ExtStat, b: ExtStat| ext_before(m, a, b)),
        total_count(stats_of(r@)) == total_count(stats_of(v@)),
        total_bytes(stats_of(r@)) == total_bytes(stats_of(v@)),
{
    let ghost input = stats_of(v@);
    let ghost before = |a: ExtStat, b: ExtStat| ext_before(m, a, b);
    let mut rest = v;
    let mut out: Vec<Extension> = Vec::new();
    let ghost mut p: Seq<int> = Seq::empty();
    let mut i: usize = 0;
    let n = rest.len();
    proof {
        lemma_ext_order(m);
        assert(input.subrange(0, 0) =~= Seq::<ExtStat>::empty());
        assert(rest@.len() == input.len());
        assert(stats_of(rest@) =~= input.subrange(0, n as int));
    }
    while rest.len() > 0
        invariant
            before == (|a: ExtStat, b: ExtStat| ext_before(m, a, b)),
            orders_by_key(before),
            n == input.len(),
            i + rest.len() == n,
            stats_of(rest@) == input.subrange(i as int, n as int),
            out.len() == i,
            p.len() == i,
            forall|a: int| 0 <= a < i ==> 0 <= #[trigger] p[a] < i,
            forall|a: int, b: int| 0 <= a < i && 0 <= b < i && a != b ==> p[a] != p[b],
            forall|a: int| 0 <= a < i ==> stats_of(out@)[a] == input[#[trigger] p[a]],
            ordered_stably(stats_of(out@), p, before),
            total_count(stats_of(out@)) == total_count(input.subrange(0, i as int)),
            total_bytes(stats_of(out@)) == total_bytes(input.subrange(0, i as int)),
        decreases rest.len(),
    {
        let ghost r0 = rest@;
        let x = rest.remove(0);
        assert(stats_of(r0)[0] == x@);
        assert(x@ == input[i as int]);
        assert(stats_of(rest@) =~= stats_of(r0).subrange(1, r0.len() as int));
        assert(stats_of(rest@) =~= input.subrange(i + 1, n as int));
        let k = ext_insertion_point(&out, &x, m);
        proof {
            assert forall|j: int| 0 <= j < k implies !before(x@, #[trigger] stats_of(out@)[j]) by {
                assert(!ext_before(m, x@, stats_of(out@)[j]));
            }
            lemma_insert_stable(stats_of(out@), p, x@, i as int, k as int, before);
            lemma_totals_insert(stats_of(out@), k as int, x@);
            assert(input.subrange(0, i + 1).drop_last() =~= input.subrange(0, i as int));
        }
        let ghost old_out = stats_of(out@);
        out.insert(k, x);
        assert(stats_of(out@) =~= old_out.insert(k as int, x@));
        proof {
            lemma_arrangement_insert(input, old_out, p, i as int, k as int);
            p = p.insert(k as int, i as int);
        }
        i += 1;
    }
    assert(input.subrange(0, n as int) =~= input);
    assert(is_arrangement(p, input.len()));
    out
}

/// A stable sort keeps one entry per extension, each for at least one file.
pub proof fn lemma_sorted_stats(input: Seq<ExtStat>, out: Seq<ExtStat>, before: spec_fn(ExtStat, ExtStat) -> bool)
    requires
        stable_sort_of(input, out, before),
    ensures
        names_unique(input) ==> names_unique(out),
        counts_positive(input) ==> counts_positive(out),
{
    let p = choose|p: Seq<int>|
        {
            &&& is_arrangement(p, input.len())
            &&& out.len() == input.len()
            &&& forall|i: int| 0 <= i < out.len() ==> out[i] == input[#[trigger] p[i]]
            &&& ordered_stably(out, p, before)
        };
    if names_unique(input) {
        assert forall|i: int, j: int| 0 <= i < out.len() && 0 <= j < out.len() && i != j implies out[i].name
            != out[j].name by {
            assert(out[i] == input[p[i]] && out[j] == input[p[j]]);
        }
    }
    if counts_positive(input) {
        assert forall|i: int| 0 <= i < out.len() implies out[i].count >= 1 by {
            assert(out[i] == input[p[i]]);
        }
    }
}

} // verus!
