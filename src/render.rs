//! Drawing a directory tree as lines of text with box-drawing connectors.
use vstd::prelude::*;
use vstd::string::*;
use crate::directory::{Directory, base_name_of};
use crate::size::{format_size, size_text};
use crate::stats::{ExtStat, Extension, counts_positive, name_view, total_count};
use crate::text::{
    decimal, digit_count, digits, pad_left, pad_right, push_padded_left, push_padded_right,
};
use crate::tree::{
    DirTree, Measure, dir_name, lemma_subs_sum_bounds, lemma_subs_sum_prefix, subs_sum, tree_count, well_formed,
};

verus! {

/// Why a tree could not be drawn.
#[derive(Debug, PartialEq, Eq, Structural)]
pub enum DrawError {
    /// A directory to be drawn has no name: its path is a root, is empty, or
    /// ends in `..`.
    UnnamedDirectory,
}

/// The columns for depths 1 to `upto`; a depth is in the skip set where its
/// directory was the last of its siblings.
pub open spec fn bars(upto: nat, skip: Seq<usize>) -> Seq<char>
    decreases upto,
{
    if upto == 0 {
        Seq::empty()
    } else {
        bars((upto - 1) as nat, skip) + column(upto, skip)
    }
}

/// The column of depth `d`: four blanks where `d` is in the skip set, a
/// vertical bar and three blanks otherwise.
pub open spec fn column(d: nat, skip: Seq<usize>) -> Seq<char> {
    if skip.contains(d as usize) {
        seq![' ', ' ', ' ', ' ']
    } else {
        seq!['│', ' ', ' ', ' ']
    }
}

/// The indentation of an item at `depth`: the columns of depths 1 to
/// `depth - 1`.
pub open spec fn indent(depth: nat, skip: Seq<usize>) -> Seq<char> {
    bars(if depth == 0 { 0 } else { (depth - 1) as nat }, skip)
}

/// The line of an item at `depth`: indentation, an `L` corner for the last
/// item of its list or a `T` corner otherwise, a dash and the item's text.
pub open spec fn item_line(text: Seq<char>, last: bool, depth: nat, skip: Seq<usize>) -> Seq<char> {
    indent(depth, skip) + (if last { seq!['└'] } else { seq!['├'] }) + seq!['─', '─', ' '] + text
}

/// How an extension is shown: its text, or `N/A` when there is none.
pub open spec fn ext_label(name: Option<Seq<char>>) -> Seq<char> {
    match name {
        Some(x) => x,
        None => seq!['N', '/', 'A'],
    }
}

/// The widest extension label among `s`.
pub open spec fn label_width(s: Seq<ExtStat>) -> nat
    decreases s.len(),
{
    if s.len() == 0 {
        0
    } else {
        let w = label_width(s.drop_last());
        let x = ext_label(s.last().name).len();
        if x > w { x } else { w }
    }
}

/// The widest file count, in digits, among `s`.
pub open spec fn count_width(s: Seq<ExtStat>) -> nat
    decreases s.len(),
{
    if s.len() == 0 {
        0
    } else {
        let w = count_width(s.drop_last());
        let x = digits(s.last().count).len();
        if x > w { x } else { w }
    }
}

/// The text of an extension's line: the label padded to `w1`, the count
/// right-aligned to `w2`, and the size right-aligned to ten characters.
pub open spec fn ext_text(e: ExtStat, w1: nat, w2: nat) -> Seq<char> {
    pad_right(ext_label(e.name), w1) + seq![' ', '─', '─', ' '] + pad_left(digits(e.count), w2) + seq![
        ' ',
        '─',
        '─',
        ' ',
    ] + pad_left(size_text(e.bytes, 2), 10)
}

/// A directory is drawn: always when empty ones are shown, else when it
/// records a file somewhere.
pub open spec fn visible(t: DirTree, show_empty: bool) -> bool {
    show_empty || tree_count(t) > 0
}

/// Some directory of `s` from position `i` on is drawn.
pub open spec fn shown_from(s: Seq<DirTree>, i: int, show_empty: bool) -> bool {
    exists|j: int| i <= j < s.len() && visible(s[j], show_empty)
}

/// The lines, at `depth`, of a node's extensions, in their order; the last
/// one takes the `L` corner when `ends` (no subdirectory is drawn after it).
pub open spec fn ext_lines(exts: Seq<ExtStat>, ends: bool, depth: nat, skip: Seq<usize>) -> Seq<Seq<char>> {
    Seq::new(
        exts.len(),
        |i: int|
            item_line(
                ext_text(exts[i], label_width(exts), count_width(exts)),
                ends && i == exts.len() - 1,
                depth,
                skip,
            ),
    )
}

/// The lines that draw node `t`, or `None` where a directory to be drawn has
/// no name. The node's depth joins the skip set while its subtree is drawn
/// if it is the `last` of its siblings. The root (depth 0) is its bare name;
/// any other node is an item line. Its extension lines follow, then its
/// drawn subdirectories.
pub open spec fn render_node(t: DirTree, last: bool, skip: Seq<usize>, show_empty: bool) -> Option<Seq<Seq<char>>>
    decreases t, 1nat,
{
    let skip2 = if last { skip.push(t.depth as usize) } else { skip };
    match dir_name(t.root) {
        None => None,
        Some(name) => {
            let head = if t.depth == 0 { name } else { item_line(name, last, t.depth, skip2) };
            let exts = ext_lines(t.exts, !shown_from(t.subs, 0, show_empty), t.depth + 1, skip2);
            match render_subs(t.subs, false, skip2, show_empty) {
                None => None,
                Some(ls) => Some(seq![head] + exts + ls),
            }
        },
    }
}

/// The lines that draw the drawn directories of `s`, in order, when
/// `rest_shown` tells whether a directory after them is drawn too.
pub open spec fn render_subs(s: Seq<DirTree>, rest_shown: bool, skip: Seq<usize>, show_empty: bool) -> Option<Seq<Seq<char>>>
    decreases s, 0nat,
{
    if s.len() == 0 {
        Some(Seq::empty())
    } else {
        let x = s[s.len() - 1];
        let here = if visible(x, show_empty) {
            render_node(x, !rest_shown, skip, show_empty)
        } else {
            Some(Seq::empty())
        };
        match (render_subs(s.subrange(0, s.len() - 1), rest_shown || visible(x, show_empty), skip, show_empty), here) {
            (Some(a), Some(b)) => Some(a + b),
            _ => None,
        }
    }
}

/// The texts of a list of lines.
pub open spec fn lines_of(v: Seq<String>) -> Seq<Seq<char>> {
    v.map_values(|s: String| s@)
}

/// Whether depth `d` is in the skip set.
fn skips(skipped: &Vec<usize>, d: usize) -> (r: bool)
    ensures
        r == skipped@.contains(d),
{
    let mut i: usize = 0;
    while i < skipped.len()
        invariant
            i <= skipped.len(),
            forall|j: int| 0 <= j < i ==> skipped@[j] != d,
        decreases skipped.len() - i,
    {
        if skipped[i] == d {
            return true;
        }
        i += 1;
    }
    false
}

/// Appends the column of depth `d` to `s`.
fn push_column(s: &mut String, d: usize, skipped: &Vec<usize>)
    ensures
        final(s)@ == old(s)@ + column(d as nat, skipped@),
{
    proof {
        reveal_strlit("    ");
        reveal_strlit("│   ");
    }
    if skips(skipped, d) {
        s.append("    ");
    } else {
        s.append("│   ");
    }
}

/// The indentation of an item at `depth`, as `indent` describes it: for each
/// depth from 1 to `depth - 1`, a vertical bar, or blanks where that depth is
/// skipped.
pub fn vertical_bars(depth: usize, skipped: &Vec<usize>) -> (r: String)
    ensures
        r@ == indent(depth as nat, skipped@),
{
    let mut s = String::new();
    let mut i: usize = 0;
    while i + 1 < depth
        invariant
            i < depth || depth == 0,
            i == 0 || i < depth,
            s@ == bars(i as nat, skipped@),
        decreases depth - i,
    {
        push_column(&mut s, i + 1, skipped);
        assert(s@ =~= bars((i + 1) as nat, skipped@));
        i += 1;
    }
    assert(i == (if depth == 0 { 0 } else { depth - 1 }));
    s
}

/// Appends an item's corner and text to `s`.
fn push_corner(s: &mut String, text: &str, last: bool)
    ensures
        final(s)@ == old(s)@ + (if last { seq!['└'] } else { seq!['├'] }) + seq!['─', '─', ' '] + text@,
{
    proof {
        reveal_strlit("└── ");
        reveal_strlit("├── ");
    }
    if last {
        s.append("└── ");
    } else {
        s.append("├── ");
    }
    s.append(text);
    assert(final(s)@ =~= old(s)@ + (if last { seq!['└'] } else { seq!['├'] }) + seq!['─', '─', ' '] + text@);
}

/// The line of an item at `depth`, as `item_line` describes it.
pub fn item_line_text(text: &str, last: bool, depth: usize, skipped: &Vec<usize>) -> (r: String)
    ensures
        r@ == item_line(text@, last, depth as nat, skipped@),
{
    let mut s = vertical_bars(depth, skipped);
    push_corner(&mut s, text, last);
    s
}

/// The line of an item one level below a directory at `parent`, as
/// `item_line` describes it at depth `parent + 1`.
fn child_line_text(text: &str, last: bool, parent: usize, skipped: &Vec<usize>) -> (r: String)
    ensures
        r@ == item_line(text@, last, (parent + 1) as nat, skipped@),
{
    let mut s = vertical_bars(parent, skipped);
    if parent >= 1 {
        push_column(&mut s, parent, skipped);
        assert(s@ =~= bars(parent as nat, skipped@));
    }
    assert(s@ == indent((parent + 1) as nat, skipped@));
    push_corner(&mut s, text, last);
    s
}

impl Extension {
    /// The total size in binary units with `decimals` decimals, as `size_text` describes.
    pub fn total_size_bytes_human_readable(&self, decimals: usize) -> (r: String)
        ensures
            r@ == size_text(self@.bytes, decimals as nat),
    {
        format_size(self.total_size_bytes, decimals)
    }

    /// The extension's line text, as `ext_text` describes it.
    pub fn to_string_formatted(&self, max_extension_chars: usize, max_count_chars: usize) -> (r: String)
        ensures
            r@ == ext_text(self@, max_extension_chars as nat, max_count_chars as nat),
    {
        let mut s = String::new();
        proof {
            reveal_strlit("N/A");
            reveal_strlit(" ── ");
        }
        match &self.name {
            Some(n) => push_padded_right(&mut s, n.as_str(), max_extension_chars),
            None => push_padded_right(&mut s, "N/A", max_extension_chars),
        }
        s.append(" ── ");
        let count = decimal(self.count as u64);
        push_padded_left(&mut s, count.as_str(), max_count_chars);
        s.append(" ── ");
        let size = self.total_size_bytes_human_readable(2);
        push_padded_left(&mut s, size.as_str(), 10);
        assert(s@ =~= ext_text(self@, max_extension_chars as nat, max_count_chars as nat));
        s
    }
}

/// A node with an extension entry, each for at least one file, records a file.
pub proof fn lemma_count_positive(s: Seq<ExtStat>)
    requires
        counts_positive(s),
        s.len() > 0,
    ensures
        total_count(s) > 0,
    decreases s.len(),
{
    if s.len() > 1 {
        lemma_count_positive(s.drop_last());
    }
}

/// Whether some directory from `i` on is drawn: the one at `i`, or one after it.
proof fn lemma_shown_from_step(s: Seq<DirTree>, i: int, show_empty: bool)
    requires
        0 <= i < s.len(),
    ensures
        shown_from(s, i, show_empty) == (visible(s[i], show_empty) || shown_from(s, i + 1, show_empty)),
{
    if shown_from(s, i, show_empty) && !visible(s[i], show_empty) {
        let j = choose|j: int| i <= j < s.len() && visible(s[j], show_empty);
        assert(i + 1 <= j);
    }
}

/// Once a prefix of the subdirectories cannot be drawn, neither can all of them.
proof fn lemma_render_subs_fails(s: Seq<DirTree>, i: int, skip: Seq<usize>, show_empty: bool)
    requires
        0 <= i <= s.len(),
        render_subs(s.subrange(0, i), shown_from(s, i, show_empty), skip, show_empty) is None,
    ensures
        render_subs(s, false, skip, show_empty) is None,
    decreases s.len() - i,
{
    if i < s.len() {
        lemma_shown_from_step(s, i, show_empty);
        assert(s.subrange(0, i + 1).subrange(0, i) =~= s.subrange(0, i));
        lemma_render_subs_fails(s, i + 1, skip, show_empty);
    } else {
        assert(s.subrange(0, i) =~= s);
        assert(!shown_from(s, i, show_empty));
    }
}

impl Directory {
    /// The directory's name, as `dir_name` describes it.
    pub fn name(&self) -> (r: Option<String>)
        ensures
            name_view(r) == dir_name(self@.root),
    {
        let b = base_name_of(self.root.as_str());
        let n = b.as_str().unicode_len();
        if n == 0 {
            return None;
        }
        if n == 2 && b.as_str().get_char(0) == '.' && b.as_str().get_char(1) == '.' {
            assert(b@ =~= seq!['.', '.']);
            return None;
        }
        assert(b@ != seq!['.', '.']) by {
            if b@ == seq!['.', '.'] {
                assert(b@[0] == '.' && b@[1] == '.');
            }
        }
        Some(b)
    }

    /// The widest extension label of this directory, 0 when it has none.
    pub fn max_extension_chars(&self) -> (r: usize)
        ensures
            r == label_width(self@.exts),
    {
        let ghost s = self@.exts;
        let mut w: usize = 0;
        let mut i: usize = 0;
        while i < self.extensions.len()
            invariant
                s == self@.exts,
                s.len() == self.extensions.len(),
                i <= s.len(),
                w == label_width(s.subrange(0, i as int)),
            decreases self.extensions.len() - i,
        {
            proof {
                reveal_strlit("N/A");
            }
            let x = match &self.extensions[i].name {
                Some(n) => n.as_str().unicode_len(),
                None => "N/A".unicode_len(),
            };
            assert(s.subrange(0, i + 1).drop_last() =~= s.subrange(0, i as int));
            assert(s[i as int] == self.extensions@[i as int]@);
            if x > w {
                w = x;
            }
            i += 1;
        }
        assert(s.subrange(0, i as int) =~= s);
        w
    }

    /// The widest file count of this directory in digits, 0 when it has no extensions.
    pub fn max_count_chars(&self) -> (r: usize)
        ensures
            r == count_width(self@.exts),
    {
        let ghost s = self@.exts;
        let mut w: usize = 0;
        let mut i: usize = 0;
        while i < self.extensions.len()
            invariant
                s == self@.exts,
                s.len() == self.extensions.len(),
                i <= s.len(),
                w == count_width(s.subrange(0, i as int)),
            decreases self.extensions.len() - i,
        {
            let x = digit_count(self.extensions[i].count as u64);
            assert(s.subrange(0, i + 1).drop_last() =~= s.subrange(0, i as int));
            assert(s[i as int] == self.extensions@[i as int]@);
            if x > w {
                w = x;
            }
            i += 1;
        }
        assert(s.subrange(0, i as int) =~= s);
        w
    }

    /// Whether a file is recorded anywhere in this directory's tree.
    pub fn has_files(&self) -> (r: bool)
        requires
            well_formed(self@),
        ensures
            r == (tree_count(self@) > 0),
        decreases self,
    {
        if self.extensions.len() > 0 {
            proof {
                lemma_count_positive(self@.exts);
            }
            return true;
        }
        let ghost subs = self@.subs;
        let mut i: usize = 0;
        assert(subs.subrange(0, 0) =~= Seq::<DirTree>::empty());
        while i < self.subdirectories.len()
            invariant
                subs == self@.subs,
                well_formed(self@),
                i <= subs.len(),
                subs.len() == self.subdirectories.len(),
                subs_sum(subs.subrange(0, i as int), Measure::Files) == 0,
            decreases self.subdirectories.len() - i,
        {
            assert(subs[i as int] == self.subdirectories@[i as int]@);
            if self.subdirectories[i].has_files() {
                proof {
                    lemma_subs_sum_bounds(subs, i as int, Measure::Files);
                }
                return true;
            }
            proof {
                lemma_subs_sum_prefix(subs, i as int, Measure::Files);
            }
            i += 1;
        }
        assert(subs.subrange(0, i as int) =~= subs);
        false
    }

    /// Appends to `out` the lines that draw this directory as the `last` of
    /// its siblings or not, as `render_node` describes them; false when a
    /// directory to be drawn has no name. The skip set is left as it was.
    fn draw_aux(&self, last: bool, skipped: &mut Vec<usize>, show_empty: bool, out: &mut Vec<String>) -> (r: bool)
        requires
            well_formed(self@),
        ensures
            final(skipped)@ == old(skipped)@,
            r == render_node(self@, last, old(skipped)@, show_empty) is Some,
            r ==> lines_of(final(out)@) == lines_of(old(out)@) + render_node(
                self@,
                last,
                old(skipped)@,
                show_empty,
            )->0,
        decreases self,
    {
        let ghost t = self@;
        let ghost sk0 = skipped@;
        let ghost out0 = lines_of(out@);
        let ghost skip2 = if last { sk0.push(self.depth) } else { sk0 };
        if last {
            skipped.push(self.depth);
        }
        let name = match self.name() {
            Some(n) => n,
            None => {
                if last {
                    skipped.pop();
                    assert(skipped@ =~= sk0);
                }
                return false;
            },
        };
        let head = if self.depth == 0 {
            name
        } else {
            item_line_text(name.as_str(), last, self.depth, skipped)
        };
        let ghost head_text = head@;
        assert(head_text == (if t.depth == 0 { name@ } else { item_line(name@, last, t.depth, skip2) }));
        out.push(head);
        assert(lines_of(out@) =~= out0.push(head_text));
        let n = self.subdirectories.len();
        let mut last_shown: usize = n;
        let mut i: usize = 0;
        while i < n
            invariant
                t == self@,
                well_formed(t),
                n == t.subs.len(),
                n == self.subdirectories.len(),
                i <= n,
                last_shown <= n,
                last_shown == n ==> forall|j: int| 0 <= j < i ==> !visible(#[trigger] t.subs[j], show_empty),
                last_shown < n ==> last_shown < i && visible(t.subs[last_shown as int], show_empty),
                last_shown < n ==> forall|j: int| last_shown < j < i ==> !visible(#[trigger] t.subs[j], show_empty),
            decreases n - i,
        {
            assert(t.subs[i as int] == self.subdirectories@[i as int]@);
            assert(well_formed(t.subs[i as int]));
            if show_empty || self.subdirectories[i].has_files() {
                last_shown = i;
            }
            i += 1;
        }
        proof {
            if last_shown < n {
                assert(shown_from(t.subs, 0, show_empty));
            } else {
                if shown_from(t.subs, 0, show_empty) {
                    let j = choose|j: int| 0 <= j < t.subs.len() && visible(t.subs[j], show_empty);
                    assert(!visible(t.subs[j], show_empty));
                }
            }
        }
        let w1 = self.max_extension_chars();
        let w2 = self.max_count_chars();
        let ne = self.extensions.len();
        let ghost ends = last_shown == n;
        let ghost base = lines_of(out@);
        let mut k: usize = 0;
        assert(ext_lines(t.exts, ends, t.depth + 1, skip2).subrange(0, 0) =~= Seq::<Seq<char>>::empty());
        assert(base =~= base + Seq::<Seq<char>>::empty());
        while k < ne
            invariant
                t == self@,
                ne == t.exts.len(),
                ne == self.extensions.len(),
                skipped@ == skip2,
                w1 == crate::render::label_width(t.exts),
                w2 == crate::render::count_width(t.exts),
                ends == (last_shown == n),
                k <= ne,
                lines_of(out@) == base + ext_lines(t.exts, ends, t.depth + 1, skip2).subrange(0, k as int),
            decreases ne - k,
        {
            let text = self.extensions[k].to_string_formatted(w1, w2);
            let line = child_line_text(text.as_str(), last_shown == n && k + 1 == ne, self.depth, skipped);
            let ghost before = out@;
            out.push(line);
            proof {
                assert(t.exts[k as int] == self.extensions@[k as int]@);
                assert(lines_of(out@) =~= lines_of(before).push(line@));
                assert(ext_lines(t.exts, ends, t.depth + 1, skip2).subrange(0, k + 1) =~= ext_lines(
                    t.exts,
                    ends,
                    t.depth + 1,
                    skip2,
                ).subrange(0, k as int).push(line@));
            }
            k += 1;
        }
        assert(ext_lines(t.exts, ends, t.depth + 1, skip2).subrange(0, k as int) =~= ext_lines(t.exts, ends, t.depth + 1, skip2));
        let ghost base2 = lines_of(out@);
        let mut i: usize = 0;
        assert(t.subs.subrange(0, 0) =~= Seq::<DirTree>::empty());
        assert(base2 =~= base2 + Seq::<Seq<char>>::empty());
        while i < n
            invariant
                t == self@,
                well_formed(t),
                n == t.subs.len(),
                n == self.subdirectories.len(),
                skipped@ == skip2,
                skip2 == (if last { sk0.push(self.depth) } else { sk0 }),
                sk0 == old(skipped)@,
                i <= n,
                last_shown <= n,
                last_shown == n ==> forall|j: int| 0 <= j < n ==> !visible(#[trigger] t.subs[j], show_empty),
                last_shown < n ==> visible(t.subs[last_shown as int], show_empty),
                last_shown < n ==> forall|j: int| last_shown < j < n ==> !visible(#[trigger] t.subs[j], show_empty),
                render_subs(t.subs.subrange(0, i as int), shown_from(t.subs, i as int, show_empty), skip2, show_empty) is Some,
                lines_of(out@) == base2 + render_subs(
                    t.subs.subrange(0, i as int),
                    shown_from(t.subs, i as int, show_empty),
                    skip2,
                    show_empty,
                )->0,
            decreases n - i,
        {
            let child = &self.subdirectories[i];
            proof {
                assert(t.subs[i as int] == child@);
                assert(well_formed(child@));
                lemma_shown_from_step(t.subs, i as int, show_empty);
                assert(t.subs.subrange(0, i + 1).subrange(0, i as int) =~= t.subs.subrange(0, i as int));
                assert(t.subs.subrange(0, i + 1)[i as int] == child@);
                if visible(child@, show_empty) {
                    if shown_from(t.subs, i + 1, show_empty) {
                        let j = choose|j: int| i + 1 <= j < n && visible(t.subs[j], show_empty);
                        assert(last_shown != i);
                    } else {
                        if last_shown > i && last_shown < n {
                            assert(visible(t.subs[last_shown as int], show_empty));
                            assert(shown_from(t.subs, i + 1, show_empty));
                        }
                        if last_shown < i {
                            assert(!visible(t.subs[i as int], show_empty));
                        }
                        if last_shown == n {
                            assert(!visible(t.subs[i as int], show_empty));
                        }
                        assert(last_shown == i);
                    }
                }
            }
            if show_empty || child.has_files() {
                let ok = child.draw_aux(i == last_shown, skipped, show_empty, out);
                if !ok {
                    proof {
                        lemma_render_subs_fails(t.subs, i + 1, skip2, show_empty);
                    }
                    assert(skipped@ == skip2);
                    if last {
                        skipped.pop();
                        assert(skipped@ =~= sk0);
                    }
                    return false;
                }
                assert(lines_of(out@) =~= base2 + render_subs(
                    t.subs.subrange(0, i + 1),
                    shown_from(t.subs, i + 1, show_empty),
                    skip2,
                    show_empty,
                )->0);
            } else {
                assert(render_subs(t.subs.subrange(0, i + 1), shown_from(t.subs, i + 1, show_empty), skip2, show_empty)->0
                    =~= render_subs(t.subs.subrange(0, i as int), shown_from(t.subs, i as int, show_empty), skip2, show_empty)->0);
            }
            i += 1;
        }
        assert(t.subs.subrange(0, i as int) =~= t.subs);
        if last {
            skipped.pop();
            assert(skipped@ =~= sk0);
        }
        assert(dir_name(t.root) == Some(name@));
        assert(render_subs(t.subs, false, skip2, show_empty) is Some);
        assert(render_node(t, last, sk0, show_empty) == Some(seq![head_text] + ext_lines(t.exts, ends, t.depth + 1, skip2)
            + render_subs(t.subs, false, skip2, show_empty)->0));
        assert(lines_of(out@) =~= out0 + render_node(t, last, sk0, show_empty)->0);
        true
    }

    /// The lines that draw this tree, as `render_node` describes them for a
    /// tree drawn on its own; refused when a directory to be drawn has no name.
    pub fn draw(&self, show_empty: bool) -> (r: Result<Vec<String>, DrawError>)
        requires
            self.wf(),
        ensures
            r is Ok <==> render_node(self@, true, Seq::empty(), show_empty) is Some,
            r matches Ok(v) ==> lines_of(v@) == render_node(self@, true, Seq::empty(), show_empty)->0,
            r matches Err(e) ==> e == DrawError::UnnamedDirectory,
    {
        let mut skipped: Vec<usize> = Vec::new();
        let mut out: Vec<String> = Vec::new();
        assert(skipped@ =~= Seq::<usize>::empty());
        if self.draw_aux(true, &mut skipped, show_empty, &mut out) {
            assert(lines_of(out@) =~= render_node(self@, true, Seq::empty(), show_empty)->0);
            Ok(out)
        } else {
            Err(DrawError::UnnamedDirectory)
        }
    }
}

} // verus!
