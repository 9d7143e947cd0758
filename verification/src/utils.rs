//! Truncation, line diffs and project roots.

use crate::paths;
use crate::text;
use vstd::prelude::*;

verus! {

// ---------------------------------------------------------------------------
// Truncation
// ---------------------------------------------------------------------------

/// The longest prefix of `s` that takes at most `max` bytes.
pub open spec fn clipped(s: Seq<char>, max: nat) -> Seq<char>
    decreases s.len(),
{
    if text::byte_len(s) <= max {
        s
    } else {
        clipped(s.drop_last(), max)
    }
}

/// `s` as it is where it takes at most `max` bytes, else its longest prefix within `max` bytes
/// followed by the truncation notice.
pub open spec fn truncated(s: Seq<char>, max: nat) -> Seq<char> {
    if text::byte_len(s) <= max {
        s
    } else {
        clipped(s, max) + "\n... [output truncated]"@
    }
}

proof fn lemma_byte_len_monotone(s: Seq<char>, a: int, b: int)
    requires
        0 <= a <= b <= s.len(),
    ensures
        text::byte_len(s.take(a)) <= text::byte_len(s.take(b)),
        a < b ==> text::byte_len(s.take(a)) < text::byte_len(s.take(b)),
    decreases b - a,
{
    if a < b {
        lemma_byte_len_monotone(s, a, b - 1);
        assert(s.take(b).drop_last() == s.take(b - 1));
    }
}

proof fn lemma_clipped_at(s: Seq<char>, max: nat, k: int)
    requires
        0 <= k <= s.len(),
        text::byte_len(s.take(k)) <= max,
        k < s.len() ==> text::byte_len(s.take(k + 1)) > max,
    ensures
        clipped(s, max) == s.take(k),
    decreases s.len(),
{
    assert(s.take(s.len() as int) == s);
    if k < s.len() {
        lemma_byte_len_monotone(s, k + 1, s.len() as int);
        let t = s.drop_last();
        assert(t.take(k) == s.take(k));
        if k + 1 <= t.len() {
            assert(t.take(k + 1) == s.take(k + 1));
        }
        lemma_clipped_at(t, max, k);
    }
}

/// Truncation keeps a prefix of the text. The prefix takes at most `max` bytes, and no longer
/// prefix does.
pub proof fn law_truncation_keeps_the_longest_prefix(s: Seq<char>, max: nat)
    ensures
        clipped(s, max).is_prefix_of(s),
        text::byte_len(clipped(s, max)) <= max,
        forall|k: int|
            0 <= k <= s.len() && text::byte_len(#[trigger] s.take(k)) <= max ==> k <= clipped(
                s,
                max,
            ).len(),
    decreases s.len(),
{
    assert(s.take(s.len() as int) == s);
    if text::byte_len(s) <= max {
        assert(s.subrange(0, s.len() as int) =~= s);
    } else {
        let t = s.drop_last();
        assert(s.len() > 0) by {
            assert(s.len() == 0 ==> text::byte_len(s) == 0);
        }
        law_truncation_keeps_the_longest_prefix(t, max);
        let c = clipped(s, max);
        assert(s.subrange(0, c.len() as int) =~= t.subrange(0, c.len() as int));
        assert forall|k: int|
            0 <= k <= s.len() && text::byte_len(#[trigger] s.take(k)) <= max implies k
            <= c.len() by {
            if k < s.len() {
                assert(t.take(k) == s.take(k));
            }
        }
    }
}

/// A truncated text exceeds the limit by no more than the notice.
pub proof fn law_truncation_bounds_the_size(s: Seq<char>, max: nat)
    ensures
        text::byte_len(truncated(s, max)) <= max + 23,
{
    law_truncation_keeps_the_longest_prefix(s, max);
    let notice = "\n... [output truncated]"@;
    text::lemma_byte_len_concat(clipped(s, max), notice);
    reveal_strlit("\n... [output truncated]");
    lemma_ascii_byte_len(notice);
}

proof fn lemma_ascii_byte_len(s: Seq<char>)
    requires
        forall|i: int| 0 <= i < s.len() ==> (#[trigger] s[i]) as u32 <= 0x7f,
    ensures
        text::byte_len(s) == s.len(),
    decreases s.len(),
{
    if s.len() > 0 {
        let t = s.drop_last();
        assert forall|i: int| 0 <= i < t.len() implies (#[trigger] t[i]) as u32 <= 0x7f by {
            assert(t[i] == s[i]);
        }
        lemma_ascii_byte_len(t);
    }
}

/// Cuts a text down to at most `max_bytes` bytes, never inside a character, and says so at the
/// end.
pub fn safe_truncate(s: &mut String, max_bytes: usize)
    ensures
        final(s)@ == truncated(old(s)@, max_bytes as nat),
{
    if text::byte_count(s.as_str()) <= max_bytes {
        return;
    }
    let v = text::chars_of(s.as_str());
    let mut used: usize = 0;
    let mut k: usize = 0;
    let ghost src = s@;
    assert(src.take(0) =~= Seq::<char>::empty());
    while k < v.len() && text::width(v[k]) <= max_bytes - used
        invariant
            k <= v@.len(),
            v@ == src,
            used <= max_bytes,
            used == text::byte_len(src.take(k as int)),
        decreases v@.len() - k,
    {
        proof {
            assert(src.take(k + 1) =~= src.take(k as int).push(src[k as int]));
            text::lemma_byte_len_push(src.take(k as int), src[k as int]);
        }
        used += text::width(v[k]);
        k += 1;
    }
    proof {
        if k < v@.len() {
            assert(src.take(k + 1) =~= src.take(k as int).push(src[k as int]));
            text::lemma_byte_len_push(src.take(k as int), src[k as int]);
        }
        lemma_clipped_at(src, max_bytes as nat, k as int);
        assert(src.take(k as int) =~= v@.subrange(0, k as int));
    }
    let mut out = text::sub_string(&v, 0, k);
    out.append("\n... [output truncated]");
    *s = out;
}

// ---------------------------------------------------------------------------
// Line diffs
// ---------------------------------------------------------------------------

/// What happened to a line.
#[derive(Clone, Copy, PartialEq, Eq, Structural, Debug)]
pub enum LineTag {
    Equal,
    Delete,
    Insert,
}

/// One line of a diff, with its line ending.
pub struct LineChange {
    pub tag: LineTag,
    pub line: String,
}

/// The tags and lines of a diff.
pub open spec fn change_views(v: Seq<LineChange>) -> Seq<(LineTag, Seq<char>)> {
    Seq::new(v.len(), |i: int| (v[i].tag, v[i].line@))
}

/// The changes of `similar::TextDiff::from_lines(old, new)`, each with its tag and its text as
/// `similar::Change` displays it.
pub uninterp spec fn line_diff(old: Seq<char>, new: Seq<char>) -> Seq<(LineTag, Seq<char>)>;

/// The lines that `tag` keeps, put together: the equal ones and those with the tag.
pub open spec fn side_of(d: Seq<(LineTag, Seq<char>)>, tag: LineTag) -> Seq<char>
    decreases d.len(),
{
    if d.len() == 0 {
        Seq::empty()
    } else {
        side_of(d.drop_last(), tag) + (if d.last().0 is Equal || d.last().0 == tag {
            d.last().1
        } else {
            Seq::empty()
        })
    }
}

/// A text with a line ending behind its last line.
pub open spec fn terminated(s: Seq<char>) -> Seq<char> {
    if s.len() == 0 || s.last() == '\n' || s.last() == '\r' {
        s
    } else {
        s.push('\n')
    }
}

/// Whether a carriage return stands in front of newlines only.
pub open spec fn has_plain_line_ends(s: Seq<char>) -> bool {
    forall|i: int|
        0 <= i < s.len() && #[trigger] s[i] == '\r' ==> i + 1 < s.len() && s[i + 1] == '\n'
}

/// Whether a text is one line: a newline stands at its end and nowhere else.
pub open spec fn is_line(s: Seq<char>) -> bool {
    &&& s.len() > 0
    &&& s.last() == '\n'
    &&& forall|i: int| 0 <= i < s.len() - 1 ==> #[trigger] s[i] != '\n'
}

/// How many lines a text has at most: one for each line ending, and one behind the last.
pub open spec fn most_lines(s: Seq<char>) -> nat {
    s.filter(|c: char| c == '\n' || c == '\r').len() + 1
}

/// Whether two texts have few enough lines for these to be told apart by 32-bit numbers.
pub open spec fn is_countable(old: Seq<char>, new: Seq<char>) -> bool {
    most_lines(old) + most_lines(new) <= u32::MAX
}

/// Whether a diff accounts for two texts: what it keeps and deletes is the old one, what it keeps
/// and inserts is the new one, some line is changed where the two differ, and its lines are lines.
pub open spec fn accounts_for(
    d: Seq<(LineTag, Seq<char>)>,
    old: Seq<char>,
    new: Seq<char>,
) -> bool {
    &&& side_of(d, LineTag::Delete) == terminated(old)
    &&& side_of(d, LineTag::Insert) == terminated(new)
    &&& old != new ==> exists|i: int| 0 <= i < d.len() && !((#[trigger] d[i]).0 is Equal)
    &&& has_plain_line_ends(old) && has_plain_line_ends(new) ==> forall|i: int|
        0 <= i < d.len() ==> is_line((#[trigger] d[i]).1)
}

/// Calls `similar::TextDiff::from_lines` and reads `iter_all_changes`. The changes depend on the
/// two texts alone (no deadline is set). Two equal texts have equal lines only: the common
/// prefix then covers both. The changes go through the lines of both texts in order, an equal
/// line standing for one of each; a line ends behind a newline, or behind a carriage return that
/// no newline follows, and `Change` displays a newline behind a line without either. In long
/// texts the crate numbers the distinct lines with 32 bits, so this is claimed of texts that
/// cannot have more lines. Which lines are equal is not stated beyond that.
#[verifier::external_body]
fn line_changes(old: &str, new: &str) -> (r: Vec<LineChange>)
    ensures
        change_views(r@) == line_diff(old@, new@),
        old@ == new@ ==> forall|i: int| 0 <= i < r@.len() ==> (#[trigger] r@[i]).tag is Equal,
        is_countable(old@, new@) ==> accounts_for(change_views(r@), old@, new@),
{
    let diff = similar::TextDiff::from_lines(old, new);
    let mut changes = Vec::new();
    for change in diff.iter_all_changes() {
        let tag = match change.tag() {
            similar::ChangeTag::Equal => LineTag::Equal,
            similar::ChangeTag::Delete => LineTag::Delete,
            similar::ChangeTag::Insert => LineTag::Insert,
        };
        changes.push(LineChange { tag, line: change.to_string() });
    }
    changes
}

/// How many of the lines of a diff were changed: the ratio is `changes / total`, or zero where
/// there are no lines.
#[derive(Clone, Copy, PartialEq, Eq, Structural, Debug)]
pub struct DiffRatio {
    pub changes: usize,
    pub total: usize,
}

/// The ratio and the text of a diff.
pub struct DiffStats {
    pub ratio: DiffRatio,
    pub diff: String,
}

/// How many lines were deleted or inserted.
pub open spec fn changed_count(d: Seq<(LineTag, Seq<char>)>) -> nat
    decreases d.len(),
{
    if d.len() == 0 {
        0
    } else {
        changed_count(d.drop_last()) + (if d.last().0 is Equal {
            0nat
        } else {
            1nat
        })
    }
}

/// The sign in front of a line.
pub open spec fn sign_of(tag: LineTag) -> Seq<char> {
    match tag {
        LineTag::Equal => " "@,
        LineTag::Delete => "-"@,
        LineTag::Insert => "+"@,
    }
}

/// A diff as text: each line behind its sign.
pub open spec fn diff_text(d: Seq<(LineTag, Seq<char>)>) -> Seq<char>
    decreases d.len(),
{
    if d.len() == 0 {
        Seq::empty()
    } else {
        diff_text(d.drop_last()) + (sign_of(d.last().0) + d.last().1)
    }
}

/// The ratio of a diff.
pub open spec fn ratio_of(d: Seq<(LineTag, Seq<char>)>) -> (nat, nat) {
    (changed_count(d), d.len())
}

proof fn lemma_changed_count_bound(d: Seq<(LineTag, Seq<char>)>)
    ensures
        changed_count(d) <= d.len(),
    decreases d.len(),
{
    if d.len() > 0 {
        lemma_changed_count_bound(d.drop_last());
    }
}

proof fn lemma_all_equal_count(d: Seq<(LineTag, Seq<char>)>)
    requires
        forall|i: int| 0 <= i < d.len() ==> (#[trigger] d[i]).0 is Equal,
    ensures
        changed_count(d) == 0,
    decreases d.len(),
{
    if d.len() > 0 {
        let t = d.drop_last();
        assert forall|i: int| 0 <= i < t.len() implies (#[trigger] t[i]).0 is Equal by {
            assert(t[i] == d[i]);
        }
        lemma_all_equal_count(t);
    }
}

/// Counts the changed lines and renders the diff.
pub fn summarize_changes(changes: &Vec<LineChange>) -> (r: DiffStats)
    ensures
        (r.ratio.changes as nat, r.ratio.total as nat) == ratio_of(change_views(changes@)),
        r.diff@ == diff_text(change_views(changes@)),
{
    let mut changed: usize = 0;
    let mut out = String::new();
    let mut i: usize = 0;
    let ghost d = change_views(changes@);
    while i < changes.len()
        invariant
            i <= changes.len(),
            d == change_views(changes@),
            changed == changed_count(d.take(i as int)),
            changed <= i,
            out@ == diff_text(d.take(i as int)),
        decreases changes.len() - i,
    {
        proof {
            assert(d.take(i + 1).drop_last() == d.take(i as int));
            assert(d.take(i + 1).last() == d[i as int]);
        }
        let ghost before = out@;
        match changes[i].tag {
            LineTag::Equal => {
                out.append(" ");
            },
            LineTag::Delete => {
                changed += 1;
                out.append("-");
            },
            LineTag::Insert => {
                changed += 1;
                out.append("+");
            },
        }
        out.append(changes[i].line.as_str());
        assert(out@ =~= before + (sign_of(d[i as int].0) + d[i as int].1));
        i += 1;
    }
    assert(d.take(d.len() as int) == d);
    DiffStats { ratio: DiffRatio { changes: changed, total: changes.len() }, diff: out }
}

proof fn lemma_changed_count_positive(d: Seq<(LineTag, Seq<char>)>, i: int)
    requires
        0 <= i < d.len(),
        !(d[i].0 is Equal),
    ensures
        changed_count(d) > 0,
    decreases d.len(),
{
    if i < d.len() - 1 {
        assert(d.drop_last()[i] == d[i]);
        lemma_changed_count_positive(d.drop_last(), i);
    }
}

/// The text that a mark stands for in the lines of a diff: the lines behind a blank or the mark,
/// without these.
pub open spec fn read_back(lines: Seq<Seq<char>>, mark: char) -> Seq<char>
    decreases lines.len(),
{
    if lines.len() == 0 {
        Seq::empty()
    } else {
        read_back(lines.drop_last(), mark) + (if lines.last()[0] == ' ' || lines.last()[0]
            == mark {
            lines.last().skip(1)
        } else {
            Seq::empty()
        })
    }
}

/// How many lines of a diff are marked as deleted or inserted.
pub open spec fn marked_count(lines: Seq<Seq<char>>) -> nat
    decreases lines.len(),
{
    if lines.len() == 0 {
        0
    } else {
        marked_count(lines.drop_last()) + (if lines.last()[0] == '-' || lines.last()[0] == '+' {
            1nat
        } else {
            0nat
        })
    }
}

/// The lines of a diff, each behind its sign.
spec fn signed_lines(d: Seq<(LineTag, Seq<char>)>) -> Seq<Seq<char>> {
    Seq::new(d.len(), |i: int| sign_of(d[i].0) + d[i].1)
}

proof fn lemma_signed_lines(d: Seq<(LineTag, Seq<char>)>)
    requires
        forall|i: int| 0 <= i < d.len() ==> is_line((#[trigger] d[i]).1),
    ensures
        diff_text(d) == text::concatenated(signed_lines(d)),
        forall|i: int| 0 <= i < d.len() ==> is_line(#[trigger] signed_lines(d)[i]),
        read_back(signed_lines(d), '-') == side_of(d, LineTag::Delete),
        read_back(signed_lines(d), '+') == side_of(d, LineTag::Insert),
        marked_count(signed_lines(d)) == changed_count(d),
    decreases d.len(),
{
    reveal_strlit(" ");
    reveal_strlit("-");
    reveal_strlit("+");
    if d.len() > 0 {
        let t = d.drop_last();
        let l = d.last();
        assert forall|i: int| 0 <= i < t.len() implies is_line((#[trigger] t[i]).1) by {
            assert(t[i] == d[i]);
        }
        lemma_signed_lines(t);
        let line = sign_of(l.0) + l.1;
        assert(signed_lines(d).drop_last() =~= signed_lines(t));
        assert(signed_lines(d) =~= signed_lines(t).push(line));
        text::lemma_concatenated_push(signed_lines(t), line);
        assert(is_line(l.1)) by {
            assert(d[d.len() - 1] == l);
        }
        assert(is_line(line)) by {
            assert(line.last() == l.1.last());
            assert forall|i: int| 0 <= i < line.len() - 1 implies #[trigger] line[i] != '\n' by {
                if i > 0 {
                    assert(line[i] == l.1[i - 1]);
                }
            }
        }
        assert forall|i: int| 0 <= i < d.len() implies is_line(#[trigger] signed_lines(d)[i]) by {
            if i < t.len() {
                assert(signed_lines(d)[i] == signed_lines(t)[i]);
            }
        }
        assert(line.skip(1) =~= l.1);
        assert(line[0] == sign_of(l.0)[0]);
    }
}

proof fn lemma_diff_reads_back(old: Seq<char>, new: Seq<char>, d: Seq<(LineTag, Seq<char>)>)
    requires
        accounts_for(d, old, new),
        has_plain_line_ends(old),
        has_plain_line_ends(new),
    ensures
        read_back(text::segments_of(diff_text(d)), '-') == terminated(old),
        read_back(text::segments_of(diff_text(d)), '+') == terminated(new),
        marked_count(text::segments_of(diff_text(d))) == changed_count(d),
        text::segments_of(diff_text(d)).len() == d.len(),
{
    lemma_signed_lines(d);
    let lines = signed_lines(d);
    assert forall|i: int| 0 <= i < lines.len() implies (#[trigger] lines[i]).len() > 0
        && lines[i].last() == '\n' && !lines[i].drop_last().contains('\n') by {
        assert(is_line(lines[i]));
    }
    text::lemma_segments_of_lines(lines, 0);
    assert(lines.skip(0) =~= lines);
}

/// Whether both texts can be read back from the lines of a diff, and the ratio counts these.
pub open spec fn reads_back(stats: DiffStats, old: Seq<char>, new: Seq<char>) -> bool {
    let lines = text::segments_of(stats.diff@);
    &&& read_back(lines, '-') == terminated(old)
    &&& read_back(lines, '+') == terminated(new)
    &&& stats.ratio.changes == marked_count(lines)
    &&& stats.ratio.total == lines.len()
}

/// The share of changed lines between two texts.
pub fn compute_diff_ratio(old: &str, new: &str) -> (r: DiffRatio)
    ensures
        (r.changes as nat, r.total as nat) == ratio_of(line_diff(old@, new@)),
        r.changes <= r.total,
        old@ == new@ ==> r.changes == 0,
        is_countable(old@, new@) && r.changes == 0 ==> old@ == new@,
{
    compute_diff_stats(old, new).ratio
}

/// The diff between two texts and its ratio, in a single pass. Both texts can be read back from
/// the diff, the old one from the lines marked with a minus sign, the new one from those marked
/// with a plus sign, each with the lines in common.
pub fn compute_diff_stats(old: &str, new: &str) -> (r: DiffStats)
    ensures
        (r.ratio.changes as nat, r.ratio.total as nat) == ratio_of(line_diff(old@, new@)),
        r.diff@ == diff_text(line_diff(old@, new@)),
        r.ratio.changes <= r.ratio.total,
        old@ == new@ ==> r.ratio.changes == 0,
        is_countable(old@, new@) && r.ratio.changes == 0 ==> old@ == new@,
        is_countable(old@, new@) ==> accounts_for(line_diff(old@, new@), old@, new@),
        is_countable(old@, new@) && has_plain_line_ends(old@) && has_plain_line_ends(new@)
            ==> reads_back(r, old@, new@),
{
    let changes = line_changes(old, new);
    proof {
        let d = change_views(changes@);
        lemma_changed_count_bound(d);
        if old@ == new@ {
            assert forall|i: int| 0 <= i < d.len() implies (#[trigger] d[i]).0 is Equal by {
                assert(changes@[i].tag is Equal);
            }
            lemma_all_equal_count(d);
        } else if is_countable(old@, new@) {
            let i = choose|i: int| 0 <= i < d.len() && !((#[trigger] d[i]).0 is Equal);
            lemma_changed_count_positive(d, i);
        }
        if is_countable(old@, new@) && has_plain_line_ends(old@) && has_plain_line_ends(new@) {
            lemma_diff_reads_back(old@, new@, d);
        }
    }
    summarize_changes(&changes)
}

/// Whether a change is minor: some lines changed, but fewer than a fifth of them.
pub open spec fn is_minor(changes: nat, total: nat) -> bool {
    0 < changes && changes * 5 < total
}

impl DiffRatio {
    /// Whether the change is minor (above zero and below 20%).
    pub fn minor(&self) -> (r: bool)
        ensures
            r == is_minor(self.changes as nat, self.total as nat),
    {
        0 < self.changes && (self.changes as u128) * 5 < self.total as u128
    }
}

// ---------------------------------------------------------------------------
// Project roots
// ---------------------------------------------------------------------------

/// The first path whose mark is set, from position `i` on.
pub open spec fn first_marked(
    candidates: Seq<Seq<char>>,
    marked: Seq<bool>,
    i: int,
) -> Option<Seq<char>>
    decreases candidates.len() - i,
{
    if i >= candidates.len() || i >= marked.len() {
        None
    } else if marked[i] {
        Some(candidates[i])
    } else {
        first_marked(candidates, marked, i + 1)
    }
}

/// The names whose presence makes a directory a project root.
pub open spec fn marker_names() -> Seq<Seq<char>> {
    seq![".git"@, ".klaar"@, "Cargo.toml"@]
}

/// The entries to look for in a directory, any of which makes it a project root.
pub fn project_markers(dir: &str) -> (r: Vec<String>)
    ensures
        text::views(r@) == Seq::new(3, |i: int| paths::joined_path(dir@, marker_names()[i])),
{
    let mut r: Vec<String> = Vec::new();
    r.push(paths::join_path(dir, ".git"));
    r.push(paths::join_path(dir, ".klaar"));
    r.push(paths::join_path(dir, "Cargo.toml"));
    assert(text::views(r@) =~= Seq::new(3, |i: int| paths::joined_path(dir@, marker_names()[i])));
    r
}

/// The project root of a path: the nearest of the path and its parents that holds a marker.
/// `marked[i]` tells whether the `i`-th of them does; what the list leaves out does not.
pub fn find_project_root(path: &str, marked: &Vec<bool>) -> (r: Option<String>)
    ensures
        r is Some <==> first_marked(paths::ancestors_of(path@), marked@, 0) is Some,
        r matches Some(root) ==> first_marked(paths::ancestors_of(path@), marked@, 0) == Some(
            root@,
        ),
{
    let candidates = paths::ancestors(path);
    let ghost all = paths::ancestors_of(path@);
    let mut i: usize = 0;
    while i < candidates.len() && i < marked.len()
        invariant
            i <= candidates@.len(),
            i <= marked@.len(),
            all == paths::ancestors_of(path@),
            text::views(candidates@) == all,
            first_marked(all, marked@, 0) == first_marked(all, marked@, i as int),
        decreases candidates@.len() - i,
    {
        assert(all.len() == candidates@.len());
        if marked[i] {
            assert(all[i as int] == candidates@[i as int]@);
            return Some(candidates[i].clone());
        }
        i += 1;
    }
    assert(text::views(candidates@).len() == candidates@.len());
    None
}

proof fn lemma_ancestors_contain(p: Seq<char>, i: int)
    requires
        0 <= i < paths::ancestors_of(p).len(),
    ensures
        paths::within(p, paths::ancestors_of(p)[i]),
    decreases p.len(),
{
    paths::law_within_is_a_preorder(p, p, p);
    if let Some(q) = paths::parent_of(p) {
        paths::lemma_parent_is_shorter(p);
        paths::lemma_within_parent(p);
        if i > 0 {
            lemma_ancestors_contain(q, i - 1);
            assert(paths::ancestors_of(p)[i] == paths::ancestors_of(q)[i - 1]);
            paths::law_within_is_a_preorder(p, q, paths::ancestors_of(p)[i]);
        }
    }
}

/// A path lies within the project root that is found for it.
pub proof fn law_path_lies_within_its_project_root(path: Seq<char>, marked: Seq<bool>)
    ensures
        first_marked(paths::ancestors_of(path), marked, 0) matches Some(root) ==> paths::within(
            path,
            root,
        ),
{
    lemma_first_marked_member(paths::ancestors_of(path), marked, 0);
    if let Some(root) = first_marked(paths::ancestors_of(path), marked, 0) {
        let i = choose|i: int|
            0 <= i < paths::ancestors_of(path).len() && paths::ancestors_of(path)[i] == root;
        lemma_ancestors_contain(path, i);
    }
}

proof fn lemma_first_marked_member(c: Seq<Seq<char>>, marked: Seq<bool>, i: int)
    requires
        0 <= i,
    ensures
        first_marked(c, marked, i) matches Some(root) ==> exists|k: int|
            0 <= k < c.len() && c[k] == root,
    decreases c.len() - i,
{
    if i < c.len() && i < marked.len() && !marked[i] {
        lemma_first_marked_member(c, marked, i + 1);
    }
}

// ---------------------------------------------------------------------------
// Laws
// ---------------------------------------------------------------------------

/// A text within the limit is kept as it is. Of a longer one as many characters are kept as fit,
/// and the notice of truncation follows.
pub proof fn law_truncated_texts_end_in_a_notice(s: Seq<char>, max: nat)
    ensures
        text::byte_len(s) <= max ==> truncated(s, max) == s,
        text::byte_len(s) > max ==> exists|k: int|
            0 <= k < s.len() && truncated(s, max) == #[trigger] s.take(k)
                + "\n... [output truncated]"@ && text::byte_len(s.take(k)) <= max
                && text::byte_len(s.take(k + 1)) > max,
{
    if text::byte_len(s) > max {
        law_truncation_keeps_the_longest_prefix(s, max);
        let c = clipped(s, max);
        let k = c.len() as int;
        assert(s.take(k) =~= c);
        assert(s.take(s.len() as int) =~= s);
        assert(k < s.len());
        if text::byte_len(s.take(k + 1)) <= max {
            assert(k + 1 <= c.len());
        }
    }
}

/// The changed lines of a diff are those that were deleted or inserted.
pub proof fn law_changed_lines_are_the_deleted_and_inserted(d: Seq<(LineTag, Seq<char>)>)
    ensures
        ratio_of(d).0 == d.filter(
            |c: (LineTag, Seq<char>)| c.0 == LineTag::Delete || c.0 == LineTag::Insert,
        ).len(),
        ratio_of(d).1 == d.len(),
    decreases d.len(),
{
    reveal(Seq::filter);
    if d.len() > 0 {
        law_changed_lines_are_the_deleted_and_inserted(d.drop_last());
    }
}

/// Each line of a diff stands behind its sign: a blank for a line in common, a minus sign for a
/// deleted one, a plus sign for an inserted one.
pub proof fn law_diff_lines_stand_behind_their_sign(
    d: Seq<(LineTag, Seq<char>)>,
    tag: LineTag,
    line: Seq<char>,
)
    ensures
        diff_text(Seq::empty()).len() == 0,
        diff_text(d.push((tag, line))) == diff_text(d).push(
            match tag {
                LineTag::Equal => ' ',
                LineTag::Delete => '-',
                LineTag::Insert => '+',
            },
        ) + line,
{
    reveal_strlit(" ");
    reveal_strlit("-");
    reveal_strlit("+");
    assert(d.push((tag, line)).drop_last() =~= d);
    assert(diff_text(d.push((tag, line))) =~= diff_text(d).push(
        match tag {
            LineTag::Equal => ' ',
            LineTag::Delete => '-',
            LineTag::Insert => '+',
        },
    ) + line);
}

/// A change is minor where some lines changed, and fewer than twenty in a hundred.
pub proof fn law_minor_changes_are_below_twenty_percent(changes: nat, total: nat)
    ensures
        is_minor(changes, total) <==> (changes != 0 && 100 * changes < 20 * total),
{
}

/// The project root is the nearest candidate that holds a marker.
pub proof fn law_the_nearest_marked_directory_is_the_root(
    candidates: Seq<Seq<char>>,
    marked: Seq<bool>,
    i: int,
)
    requires
        0 <= i < candidates.len(),
        i < marked.len(),
        marked[i],
        forall|j: int| 0 <= j < i ==> !(#[trigger] marked[j]),
    ensures
        first_marked(candidates, marked, 0) == Some(candidates[i]),
{
    lemma_first_marked_at(candidates, marked, 0, i);
}

proof fn lemma_first_marked_at(c: Seq<Seq<char>>, marked: Seq<bool>, k: int, i: int)
    requires
        0 <= k <= i < c.len(),
        i < marked.len(),
        marked[i],
        forall|j: int| k <= j < i ==> !(#[trigger] marked[j]),
    ensures
        first_marked(c, marked, k) == Some(c[i]),
    decreases i - k,
{
    if k < i {
        lemma_first_marked_at(c, marked, k + 1, i);
    }
}

/// Without a marker there is no project root.
pub proof fn law_without_a_marker_there_is_no_root(
    candidates: Seq<Seq<char>>,
    marked: Seq<bool>,
    i: int,
)
    requires
        0 <= i,
        forall|j: int| i <= j < candidates.len() && j < marked.len() ==> !(#[trigger] marked[j]),
    ensures
        first_marked(candidates, marked, i) is None,
    decreases candidates.len() - i,
{
    if i < candidates.len() && i < marked.len() {
        law_without_a_marker_there_is_no_root(candidates, marked, i + 1);
    }
}

/// A directory is a project root by its repository, its configuration or its manifest.
pub proof fn law_roots_are_marked_by_three_names(name: Seq<char>)
    ensures
        marker_names().contains(name) <==> (name == ".git"@ || name == ".klaar"@ || name
            == "Cargo.toml"@),
        marker_names().len() == 3,
{
    let m = marker_names();
    assert(m[0] == ".git"@ && m[1] == ".klaar"@ && m[2] == "Cargo.toml"@);
}

/// A diff is looked at line by line, with the tag and the text of each.
pub proof fn law_a_diff_holds_its_lines(v: Seq<LineChange>, i: int)
    requires
        0 <= i < v.len(),
    ensures
        change_views(v).len() == v.len(),
        change_views(v)[i].0 == v[i].tag,
        change_views(v)[i].1 == v[i].line@,
{
}

/// A text that ends in a line ending, or is empty, stays; every other one gets a newline.
pub proof fn law_the_last_line_is_terminated(s: Seq<char>, c: char)
    ensures
        terminated(Seq::empty()).len() == 0,
        terminated(s.push('\n')) == s.push('\n'),
        terminated(s.push('\r')) == s.push('\r'),
        c != '\n' && c != '\r' ==> terminated(s.push(c)) == s.push(c).push('\n'),
{
}

/// Both texts can be read back from a diff that keeps them, and its ratio counts the lines with a
/// sign among all of its lines.
pub proof fn law_a_diff_gives_both_texts_back(stats: DiffStats, old: Seq<char>, new: Seq<char>)
    ensures
        reads_back(stats, old, new) <==> (read_back(text::segments_of(stats.diff@), '-')
            == terminated(old) && read_back(text::segments_of(stats.diff@), '+') == terminated(new)
            && stats.ratio.changes == marked_count(text::segments_of(stats.diff@))
            && stats.ratio.total == text::segments_of(stats.diff@).len()),
{
}

/// Of the lines of a diff, a text is read back from those behind a blank or its mark.
pub proof fn law_lines_are_read_back_by_their_mark(
    lines: Seq<Seq<char>>,
    line: Seq<char>,
    sign: char,
    mark: char,
)
    ensures
        read_back(Seq::empty(), mark).len() == 0,
        sign == ' ' || sign == mark ==> read_back(lines.push(seq![sign] + line), mark) == read_back(
            lines,
            mark,
        ) + line,
        sign != ' ' && sign != mark ==> read_back(lines.push(seq![sign] + line), mark) == read_back(
            lines,
            mark,
        ),
        marked_count(lines.push(seq![sign] + line)) == marked_count(lines) + (if sign == '-' || sign
            == '+' {
            1nat
        } else {
            0nat
        }),
        marked_count(Seq::empty()) == 0,
{
    let l = seq![sign] + line;
    let all = lines.push(l);
    assert(all.drop_last() =~= lines);
    assert(all.last() == l);
    assert(l[0] == sign);
    assert(l.skip(1) =~= line);
    if sign != ' ' && sign != mark {
        assert(read_back(all, mark) =~= read_back(lines, mark));
    }
}

} // verus!
