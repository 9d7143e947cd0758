//! Line replacements in a file.

use crate::text;
use vstd::prelude::*;

verus! {

/// A replacement of the lines from `line_start` to `line_end`, counted from one and both in.
pub struct Hunk {
    pub line_start: usize,
    pub line_end: usize,
    pub new_content: String,
}

/// What a hunk holds.
pub struct HunkView {
    pub line_start: nat,
    pub line_end: nat,
    pub new_content: Seq<char>,
}

impl View for Hunk {
    type V = HunkView;

    open spec fn view(&self) -> HunkView {
        HunkView {
            line_start: self.line_start as nat,
            line_end: self.line_end as nat,
            new_content: self.new_content@,
        }
    }
}

/// What a list of hunks holds.
pub open spec fn hunk_views(v: Seq<Hunk>) -> Seq<HunkView> {
    Seq::new(v.len(), |i: int| v[i]@)
}

/// The outcome that is reported to the agent.
pub struct ApplyResult {
    pub status: String,
    pub lines_changed: usize,
    pub file_path: String,
}

/// A patched text with its report.
pub struct Application {
    pub output: String,
    pub result: ApplyResult,
}

/// Why hunks are refused.
#[derive(Clone, Copy, PartialEq, Eq, Structural, Debug)]
pub enum ApplyError {
    /// A hunk starts below line one.
    StartBelowOne { line_start: usize },
    /// A hunk ends behind the last line.
    EndPastFile { line_end: usize, total: usize },
    /// A hunk starts behind its end.
    StartPastEnd { line_start: usize, line_end: usize },
    /// A hunk (by its place in the order of start lines) overlaps with the one in front of it.
    Overlap { place: usize, start: usize, end: usize, previous_start: usize, previous_end: usize },
}

impl ApplyError {
    /// The message of an error.
    pub open spec fn text(self) -> Seq<char> {
        match self {
            ApplyError::StartBelowOne { line_start } => "Hunk line_start "@ + text::decimal(
                line_start as nat,
            ) + " is invalid (must be >= 1)"@,
            ApplyError::EndPastFile { line_end, total } => "Hunk line_end "@ + text::decimal(
                line_end as nat,
            ) + " exceeds file length "@ + text::decimal(total as nat)
                + " — file may have changed"@,
            ApplyError::StartPastEnd { line_start, line_end } => "Hunk line_start "@
                + text::decimal(line_start as nat) + " > line_end "@ + text::decimal(
                line_end as nat,
            ),
            ApplyError::Overlap { place, start, end, previous_start, previous_end } =>
            "Hunks overlap: hunk "@ + text::decimal(place as nat + 1) + " (lines "@
                + text::decimal(start as nat) + "-"@ + text::decimal(end as nat)
                + ") overlaps with hunk "@ + text::decimal(place as nat) + " (lines "@
                + text::decimal(previous_start as nat) + "-"@ + text::decimal(
                previous_end as nat,
            ) + ")"@,
        }
    }

    /// Renders the message of an error.
    pub fn message(&self) -> (r: String)
        ensures
            r@ == self.text(),
    {
        match self {
            ApplyError::StartBelowOne { line_start } => {
                let mut m = text::copy("Hunk line_start ");
                m.append(text::decimal_text(*line_start as u128).as_str());
                m.append(" is invalid (must be >= 1)");
                m
            },
            ApplyError::EndPastFile { line_end, total } => {
                let mut m = text::copy("Hunk line_end ");
                m.append(text::decimal_text(*line_end as u128).as_str());
                m.append(" exceeds file length ");
                m.append(text::decimal_text(*total as u128).as_str());
                m.append(" — file may have changed");
                m
            },
            ApplyError::StartPastEnd { line_start, line_end } => {
                let mut m = text::copy("Hunk line_start ");
                m.append(text::decimal_text(*line_start as u128).as_str());
                m.append(" > line_end ");
                m.append(text::decimal_text(*line_end as u128).as_str());
                m
            },
            ApplyError::Overlap { place, start, end, previous_start, previous_end } => {
                let mut m = text::copy("Hunks overlap: hunk ");
                m.append(text::decimal_text(*place as u128 + 1).as_str());
                m.append(" (lines ");
                m.append(text::decimal_text(*start as u128).as_str());
                m.append("-");
                m.append(text::decimal_text(*end as u128).as_str());
                m.append(") overlaps with hunk ");
                m.append(text::decimal_text(*place as u128).as_str());
                m.append(" (lines ");
                m.append(text::decimal_text(*previous_start as u128).as_str());
                m.append("-");
                m.append(text::decimal_text(*previous_end as u128).as_str());
                m.append(")");
                m
            },
        }
    }
}

// ---------------------------------------------------------------------------
// Validation
// ---------------------------------------------------------------------------

/// What is wrong with one hunk of a file with `total` lines.
pub open spec fn hunk_fault(h: HunkView, total: nat) -> Option<ApplyError> {
    if h.line_start < 1 {
        Some(ApplyError::StartBelowOne { line_start: h.line_start as usize })
    } else if h.line_end > total {
        Some(
            ApplyError::EndPastFile { line_end: h.line_end as usize, total: total as usize },
        )
    } else if h.line_start > h.line_end {
        Some(
            ApplyError::StartPastEnd {
                line_start: h.line_start as usize,
                line_end: h.line_end as usize,
            },
        )
    } else {
        None
    }
}

/// The first fault of the hunks from `i` on.
pub open spec fn first_fault(hs: Seq<HunkView>, total: nat, i: int) -> Option<ApplyError>
    decreases hs.len() - i,
{
    if i >= hs.len() {
        None
    } else if hunk_fault(hs[i], total) is Some {
        hunk_fault(hs[i], total)
    } else {
        first_fault(hs, total, i + 1)
    }
}

/// A list in the order of start lines with one more hunk, behind those that start no later.
pub open spec fn placed(hs: Seq<HunkView>, h: HunkView) -> Seq<HunkView>
    decreases hs.len(),
{
    if hs.len() == 0 || hs.last().line_start <= h.line_start {
        hs.push(h)
    } else {
        placed(hs.drop_last(), h).push(hs.last())
    }
}

/// The hunks in the order of their start lines. Those with the same start keep their order.
pub open spec fn in_order(hs: Seq<HunkView>) -> Seq<HunkView>
    decreases hs.len(),
{
    if hs.len() == 0 {
        Seq::empty()
    } else {
        placed(in_order(hs.drop_last()), hs.last())
    }
}

/// The first overlap of two neighbours in an ordered list, from place `i` on.
pub open spec fn first_overlap(hs: Seq<HunkView>, i: int) -> Option<ApplyError>
    decreases hs.len() - i,
{
    if i >= hs.len() {
        None
    } else if hs[i].line_start <= hs[i - 1].line_end {
        Some(
            ApplyError::Overlap {
                place: i as usize,
                start: hs[i].line_start as usize,
                end: hs[i].line_end as usize,
                previous_start: hs[i - 1].line_start as usize,
                previous_end: hs[i - 1].line_end as usize,
            },
        )
    } else {
        first_overlap(hs, i + 1)
    }
}

/// Why hunks are refused for a file with `total` lines, if they are.
pub open spec fn refusal(hs: Seq<HunkView>, total: nat) -> Option<ApplyError> {
    if first_fault(hs, total, 0) is Some {
        first_fault(hs, total, 0)
    } else {
        first_overlap(in_order(hs), 1)
    }
}

/// Each hunk lies in the file, and starts behind the end of the one in front of it.
pub open spec fn is_applicable(hs: Seq<HunkView>, total: nat) -> bool {
    &&& forall|i: int|
        0 <= i < hs.len() ==> 1 <= (#[trigger] hs[i]).line_start <= hs[i].line_end <= total
    &&& forall|i: int, j: int|
        0 <= i < j < hs.len() ==> (#[trigger] hs[i]).line_end < (#[trigger] hs[j]).line_start
}

proof fn lemma_placed(hs: Seq<HunkView>, h: HunkView)
    ensures
        placed(hs, h).len() == hs.len() + 1,
        placed(hs, h).to_multiset() == hs.to_multiset().insert(h),
    decreases hs.len(),
{
    broadcast use vstd::seq_lib::group_to_multiset_ensures;

    if hs.len() == 0 || hs.last().line_start <= h.line_start {
    } else {
        lemma_placed(hs.drop_last(), h);
        assert(hs =~= hs.drop_last().push(hs.last()));
        assert(placed(hs, h).to_multiset() =~= hs.to_multiset().insert(h));
    }
}

/// Ordering neither adds nor loses a hunk.
pub proof fn law_ordering_keeps_the_hunks(hs: Seq<HunkView>)
    ensures
        in_order(hs).len() == hs.len(),
        in_order(hs).to_multiset() == hs.to_multiset(),
    decreases hs.len(),
{
    broadcast use vstd::seq_lib::group_to_multiset_ensures;

    if hs.len() > 0 {
        law_ordering_keeps_the_hunks(hs.drop_last());
        lemma_placed(in_order(hs.drop_last()), hs.last());
        assert(hs =~= hs.drop_last().push(hs.last()));
    } else {
        assert(hs =~= Seq::empty());
    }
}

spec fn all_fit(hs: Seq<HunkView>, total: nat) -> bool {
    forall|i: int|
        0 <= i < hs.len() ==> 1 <= (#[trigger] hs[i]).line_start <= hs[i].line_end <= total
}

proof fn lemma_no_fault(hs: Seq<HunkView>, total: nat, i: int)
    requires
        0 <= i,
        first_fault(hs, total, i) is None,
    ensures
        forall|j: int|
            i <= j < hs.len() ==> 1 <= (#[trigger] hs[j]).line_start <= hs[j].line_end <= total,
    decreases hs.len() - i,
{
    if i < hs.len() {
        lemma_no_fault(hs, total, i + 1);
    }
}

proof fn lemma_order_fits(hs: Seq<HunkView>, total: nat)
    requires
        all_fit(hs, total),
    ensures
        all_fit(in_order(hs), total),
    decreases hs.len(),
{
    if hs.len() > 0 {
        let rest = hs.drop_last();
        assert(all_fit(rest, total)) by {
            assert forall|i: int| 0 <= i < rest.len() implies 1 <= (#[trigger] rest[i]).line_start
                <= rest[i].line_end <= total by {
                assert(rest[i] == hs[i]);
            }
        }
        lemma_order_fits(rest, total);
        lemma_placed_fits(in_order(rest), hs.last(), total);
    }
}

proof fn lemma_placed_fits(hs: Seq<HunkView>, h: HunkView, total: nat)
    requires
        all_fit(hs, total),
        1 <= h.line_start <= h.line_end <= total,
    ensures
        all_fit(placed(hs, h), total),
    decreases hs.len(),
{
    if hs.len() == 0 || hs.last().line_start <= h.line_start {
    } else {
        let rest = hs.drop_last();
        assert forall|i: int| 0 <= i < rest.len() implies 1 <= (#[trigger] rest[i]).line_start
            <= rest[i].line_end <= total by {
            assert(rest[i] == hs[i]);
        }
        lemma_placed_fits(rest, h, total);
        assert(hs[hs.len() - 1] == hs.last());
    }
}

proof fn lemma_no_overlap(hs: Seq<HunkView>, i: int)
    requires
        1 <= i,
        first_overlap(hs, i) is None,
    ensures
        forall|j: int|
            i <= j < hs.len() ==> (#[trigger] hs[j]).line_start > hs[j - 1].line_end,
    decreases hs.len() - i,
{
    if i < hs.len() {
        lemma_no_overlap(hs, i + 1);
    }
}

proof fn lemma_chain(hs: Seq<HunkView>, total: nat, i: int, j: int)
    requires
        all_fit(hs, total),
        forall|k: int| 1 <= k < hs.len() ==> (#[trigger] hs[k]).line_start > hs[k - 1].line_end,
        0 <= i < j < hs.len(),
    ensures
        hs[i].line_end < hs[j].line_start,
    decreases j - i,
{
    assert(hs[j].line_start > hs[j - 1].line_end);
    if i < j - 1 {
        lemma_chain(hs, total, i, j - 1);
        assert(hs[j - 1].line_start <= hs[j - 1].line_end);
    }
}

/// Hunks that are not refused lie in the file and do not overlap.
pub proof fn law_accepted_hunks_do_not_overlap(hs: Seq<HunkView>, total: nat)
    requires
        refusal(hs, total) is None,
    ensures
        is_applicable(in_order(hs), total),
{
    let o = in_order(hs);
    lemma_no_fault(hs, total, 0);
    lemma_order_fits(hs, total);
    lemma_no_overlap(o, 1);
    assert forall|i: int, j: int| 0 <= i < j < o.len() implies (#[trigger] o[i]).line_end < (
    #[trigger] o[j]).line_start by {
        lemma_chain(o, total, i, j);
    }
}

proof fn lemma_fit_means_no_fault(hs: Seq<HunkView>, total: nat, i: int)
    requires
        0 <= i,
        all_fit(hs, total),
    ensures
        first_fault(hs, total, i) is None,
    decreases hs.len() - i,
{
    if i < hs.len() {
        assert(1 <= hs[i].line_start <= hs[i].line_end <= total);
        lemma_fit_means_no_fault(hs, total, i + 1);
    }
}

proof fn lemma_apart_means_no_overlap(hs: Seq<HunkView>, total: nat, i: int)
    requires
        1 <= i,
        is_applicable(hs, total),
    ensures
        first_overlap(hs, i) is None,
    decreases hs.len() - i,
{
    if i < hs.len() {
        assert(hs[i - 1].line_end < hs[i].line_start);
        lemma_apart_means_no_overlap(hs, total, i + 1);
    }
}

/// Hunks that lie in the file and do not overlap are not refused.
pub proof fn law_fitting_hunks_are_accepted(hs: Seq<HunkView>, total: nat)
    requires
        is_applicable(in_order(hs), total),
    ensures
        refusal(hs, total) is None,
{
    broadcast use vstd::seq_lib::group_to_multiset_ensures;

    let o = in_order(hs);
    law_ordering_keeps_the_hunks(hs);
    assert forall|i: int| 0 <= i < hs.len() implies 1 <= (#[trigger] hs[i]).line_start
        <= hs[i].line_end <= total by {
        assert(hs.to_multiset().contains(hs[i]));
        assert(o.contains(hs[i]));
        let j = choose|j: int| 0 <= j < o.len() && o[j] == hs[i];
        assert(1 <= o[j].line_start <= o[j].line_end <= total);
    }
    lemma_fit_means_no_fault(hs, total, 0);
    lemma_apart_means_no_overlap(o, total, 1);
}

/// Whether a hunk lies in a file with `total` lines.
pub open spec fn lies_in(h: HunkView, total: nat) -> bool {
    1 <= h.line_start && h.line_start <= h.line_end && h.line_end <= total
}

/// Whether two hunks have no line in common: one ends in front of the other.
pub open spec fn apart(g: HunkView, h: HunkView) -> bool {
    g.line_end < h.line_start || h.line_end < g.line_start
}

/// Whether no two hunks of a list have a line in common.
pub open spec fn pairwise_apart(hs: Seq<HunkView>) -> bool {
    forall|i: int, j: int|
        0 <= i < j < hs.len() ==> apart(#[trigger] hs[i], #[trigger] hs[j])
}

spec fn ascending(hs: Seq<HunkView>) -> bool {
    forall|i: int, j: int|
        0 <= i < j < hs.len() ==> (#[trigger] hs[i]).line_start <= (#[trigger] hs[j]).line_start
}

proof fn lemma_placed_bound(hs: Seq<HunkView>, h: HunkView, high: nat)
    requires
        h.line_start <= high,
        forall|i: int| 0 <= i < hs.len() ==> (#[trigger] hs[i]).line_start <= high,
    ensures
        forall|i: int|
            0 <= i < placed(hs, h).len() ==> (#[trigger] placed(hs, h)[i]).line_start <= high,
    decreases hs.len(),
{
    if hs.len() == 0 || hs.last().line_start <= h.line_start {
    } else {
        let rest = hs.drop_last();
        assert forall|i: int| 0 <= i < rest.len() implies (#[trigger] rest[i]).line_start
            <= high by {
            assert(hs[i].line_start <= high);
        }
        lemma_placed_bound(rest, h, high);
        let now = placed(hs, h);
        assert forall|i: int| 0 <= i < now.len() implies (#[trigger] now[i]).line_start
            <= high by {
            if i < now.len() - 1 {
                assert(now[i] == placed(rest, h)[i]);
            } else {
                assert(now[i] == hs[hs.len() - 1]);
            }
        }
    }
}

proof fn lemma_placed_ascends(hs: Seq<HunkView>, h: HunkView)
    requires
        ascending(hs),
    ensures
        ascending(placed(hs, h)),
    decreases hs.len(),
{
    let now = placed(hs, h);
    if hs.len() == 0 || hs.last().line_start <= h.line_start {
        assert forall|i: int, j: int| 0 <= i < j < now.len() implies (#[trigger] now[i]).line_start
            <= (#[trigger] now[j]).line_start by {
            if j < hs.len() {
                assert(hs[i].line_start <= hs[j].line_start);
            } else if i < hs.len() - 1 {
                assert(hs[i].line_start <= hs[hs.len() - 1].line_start);
            }
        }
    } else {
        let rest = hs.drop_last();
        let inner = placed(rest, h);
        let high = hs.last().line_start;
        assert forall|i: int| 0 <= i < rest.len() implies (#[trigger] rest[i]).line_start
            <= high by {
            assert(hs[i].line_start <= hs[hs.len() - 1].line_start);
        }
        assert(ascending(rest)) by {
            assert forall|i: int, j: int| 0 <= i < j < rest.len() implies (
            #[trigger] rest[i]).line_start <= (#[trigger] rest[j]).line_start by {
                assert(hs[i].line_start <= hs[j].line_start);
            }
        }
        lemma_placed_ascends(rest, h);
        lemma_placed_bound(rest, h, high);
        assert forall|i: int, j: int| 0 <= i < j < now.len() implies (#[trigger] now[i]).line_start
            <= (#[trigger] now[j]).line_start by {
            assert(now[i] == inner[i]);
            if j < inner.len() {
                assert(now[j] == inner[j]);
            }
        }
    }
}

/// The hunks are taken in the order of their start lines, whatever the order in which they are
/// given, and none is added or lost.
pub proof fn law_hunks_are_taken_by_their_start_lines(hs: Seq<HunkView>)
    ensures
        in_order(hs).to_multiset() == hs.to_multiset(),
        forall|i: int, j: int|
            0 <= i < j < in_order(hs).len() ==> (#[trigger] in_order(hs)[i]).line_start <= (
            #[trigger] in_order(hs)[j]).line_start,
    decreases hs.len(),
{
    law_ordering_keeps_the_hunks(hs);
    if hs.len() > 0 {
        law_hunks_are_taken_by_their_start_lines(hs.drop_last());
        lemma_placed_ascends(in_order(hs.drop_last()), hs.last());
    }
}

proof fn lemma_placed_apart(hs: Seq<HunkView>, h: HunkView)
    ensures
        pairwise_apart(placed(hs, h)) <==> pairwise_apart(hs) && forall|i: int|
            0 <= i < hs.len() ==> apart(#[trigger] hs[i], h),
    decreases hs.len(),
{
    let now = placed(hs, h);
    lemma_placed(hs, h);
    if hs.len() == 0 || hs.last().line_start <= h.line_start {
        if pairwise_apart(now) {
            assert forall|i: int, j: int| 0 <= i < j < hs.len() implies apart(
                #[trigger] hs[i],
                #[trigger] hs[j],
            ) by {
                assert(apart(now[i], now[j]));
            }
            assert forall|i: int| 0 <= i < hs.len() implies apart(#[trigger] hs[i], h) by {
                assert(apart(now[i], now[hs.len() as int]));
            }
        }
    } else {
        broadcast use vstd::seq_lib::group_to_multiset_ensures;

        let rest = hs.drop_last();
        let inner = placed(rest, h);
        let last = hs.last();
        lemma_placed_apart(rest, h);
        lemma_placed(rest, h);
        assert(rest.push(h).to_multiset() =~= rest.to_multiset().insert(h));
        if pairwise_apart(now) {
            assert forall|i: int, j: int| 0 <= i < j < inner.len() implies apart(
                #[trigger] inner[i],
                #[trigger] inner[j],
            ) by {
                assert(apart(now[i], now[j]));
            }
            assert forall|x: HunkView| rest.push(h).contains(x) implies apart(x, last) by {
                assert(rest.push(h).to_multiset().count(x) > 0);
                assert(inner.to_multiset().count(x) > 0);
                assert(inner.contains(x));
                let k = inner.index_of(x);
                assert(apart(now[k], now[now.len() - 1]));
            }
            assert(rest.push(h)[rest.len() as int] == h);
            assert(apart(h, last));
            assert forall|i: int, j: int| 0 <= i < j < hs.len() implies apart(
                #[trigger] hs[i],
                #[trigger] hs[j],
            ) by {
                assert(hs[i] == rest[i]);
                if j < rest.len() {
                    assert(apart(rest[i], rest[j]));
                } else {
                    assert(rest.push(h)[i] == rest[i]);
                }
            }
            assert forall|i: int| 0 <= i < hs.len() implies apart(#[trigger] hs[i], h) by {
                if i < rest.len() {
                    assert(apart(rest[i], h));
                }
            }
        }
        if pairwise_apart(hs) && forall|i: int| 0 <= i < hs.len() ==> apart(#[trigger] hs[i], h) {
            assert forall|i: int, j: int| 0 <= i < j < rest.len() implies apart(
                #[trigger] rest[i],
                #[trigger] rest[j],
            ) by {
                assert(apart(hs[i], hs[j]));
            }
            assert forall|i: int| 0 <= i < rest.len() implies apart(#[trigger] rest[i], h) by {
                assert(apart(hs[i], h));
            }
            assert forall|i: int, j: int| 0 <= i < j < now.len() implies apart(
                #[trigger] now[i],
                #[trigger] now[j],
            ) by {
                assert(now[i] == inner[i]);
                if j < inner.len() {
                    assert(now[j] == inner[j]);
                } else {
                    assert(inner.contains(inner[i]));
                    assert(inner.to_multiset().count(inner[i]) > 0);
                    assert(rest.push(h).to_multiset().count(inner[i]) > 0);
                    assert(rest.push(h).contains(inner[i]));
                    let k = rest.push(h).index_of(inner[i]);
                    if k < rest.len() {
                        assert(hs[k] == inner[i]);
                        assert(apart(hs[k], hs[hs.len() - 1]));
                    } else {
                        assert(apart(hs[hs.len() - 1], h));
                    }
                }
            }
        }
    }
}

proof fn lemma_order_apart(hs: Seq<HunkView>)
    ensures
        pairwise_apart(in_order(hs)) <==> pairwise_apart(hs),
    decreases hs.len(),
{
    broadcast use vstd::seq_lib::group_to_multiset_ensures;

    if hs.len() > 0 {
        let rest = hs.drop_last();
        let o = in_order(rest);
        let h = hs.last();
        lemma_order_apart(rest);
        lemma_placed_apart(o, h);
        law_ordering_keeps_the_hunks(rest);
        assert(hs =~= rest.push(h));
        if pairwise_apart(hs) {
            assert forall|i: int, j: int| 0 <= i < j < rest.len() implies apart(
                #[trigger] rest[i],
                #[trigger] rest[j],
            ) by {
                assert(apart(hs[i], hs[j]));
            }
            assert forall|i: int| 0 <= i < o.len() implies apart(#[trigger] o[i], h) by {
                assert(o.contains(o[i]));
                assert(rest.to_multiset().count(o[i]) > 0);
                assert(rest.contains(o[i]));
                let k = rest.index_of(o[i]);
                assert(apart(hs[k], hs[hs.len() - 1]));
            }
        }
        if pairwise_apart(in_order(hs)) {
            assert forall|i: int, j: int| 0 <= i < j < hs.len() implies apart(
                #[trigger] hs[i],
                #[trigger] hs[j],
            ) by {
                assert(hs[i] == rest[i]);
                if j < rest.len() {
                    assert(apart(rest[i], rest[j]));
                } else {
                    assert(rest.contains(rest[i]));
                    assert(o.to_multiset().count(rest[i]) > 0);
                    assert(o.contains(rest[i]));
                    let k = o.index_of(rest[i]);
                    assert(apart(o[k], h));
                }
            }
        }
    }
}

/// Hunks are accepted exactly where each lies in the file and no two have a line in common, in
/// whatever order they are given.
pub proof fn law_exactly_disjoint_hunks_are_accepted(hs: Seq<HunkView>, total: nat)
    ensures
        refusal(hs, total) is None <==> (forall|i: int|
            0 <= i < hs.len() ==> lies_in(#[trigger] hs[i], total)) && pairwise_apart(hs),
{
    let o = in_order(hs);
    lemma_order_apart(hs);
    law_hunks_are_taken_by_their_start_lines(hs);
    if refusal(hs, total) is None {
        lemma_no_fault(hs, total, 0);
        law_accepted_hunks_do_not_overlap(hs, total);
        assert forall|i: int, j: int| 0 <= i < j < o.len() implies apart(
            #[trigger] o[i],
            #[trigger] o[j],
        ) by {
            assert(o[i].line_end < o[j].line_start);
        }
    }
    if (forall|i: int| 0 <= i < hs.len() ==> lies_in(#[trigger] hs[i], total)) && pairwise_apart(
        hs,
    ) {
        assert(all_fit(hs, total)) by {
            assert forall|i: int| 0 <= i < hs.len() implies 1 <= (#[trigger] hs[i]).line_start
                <= hs[i].line_end <= total by {
                assert(lies_in(hs[i], total));
            }
        }
        lemma_order_fits(hs, total);
        assert forall|i: int, j: int| 0 <= i < j < o.len() implies (#[trigger] o[i]).line_end < (
        #[trigger] o[j]).line_start by {
            assert(apart(o[i], o[j]));
            assert(o[i].line_start <= o[j].line_start);
            assert(o[j].line_start <= o[j].line_end);
        }
        law_fitting_hunks_are_accepted(hs, total);
    }
}

spec fn clean_before(hs: Seq<HunkView>, total: nat, i: int) -> bool {
    forall|j: int| 0 <= j < i ==> lies_in(#[trigger] hs[j], total)
}

proof fn lemma_first_fault(hs: Seq<HunkView>, total: nat, i: int) -> (k: int)
    requires
        0 <= i,
        clean_before(hs, total, i),
        first_fault(hs, total, i) is Some,
    ensures
        i <= k < hs.len(),
        clean_before(hs, total, k),
        !lies_in(hs[k], total),
        first_fault(hs, total, i) == hunk_fault(hs[k], total),
    decreases hs.len() - i,
{
    if hunk_fault(hs[i], total) is Some {
        i
    } else {
        assert(lies_in(hs[i], total));
        lemma_first_fault(hs, total, i + 1)
    }
}

proof fn lemma_first_overlap(hs: Seq<HunkView>, i: int) -> (k: int)
    requires
        1 <= i,
        first_overlap(hs, i) is Some,
    ensures
        i <= k < hs.len(),
        hs[k].line_start <= hs[k - 1].line_end,
        first_overlap(hs, i) == Some(
            ApplyError::Overlap {
                place: k as usize,
                start: hs[k].line_start as usize,
                end: hs[k].line_end as usize,
                previous_start: hs[k - 1].line_start as usize,
                previous_end: hs[k - 1].line_end as usize,
            },
        ),
    decreases hs.len() - i,
{
    if hs[i].line_start <= hs[i - 1].line_end {
        i
    } else {
        lemma_first_overlap(hs, i + 1)
    }
}

/// Whether an error tells what is wrong with a hunk of a file with `total` lines.
pub open spec fn tells_fault(e: ApplyError, h: HunkView, total: nat) -> bool {
    match e {
        ApplyError::StartBelowOne { line_start } => h.line_start == line_start && line_start == 0,
        ApplyError::EndPastFile { line_end, total: t } => h.line_end == line_end && t == total
            && line_end > t && h.line_start >= 1,
        ApplyError::StartPastEnd { line_start, line_end } => h.line_start == line_start
            && h.line_end == line_end && line_start > line_end && 1 <= line_start && line_end
            <= total,
        ApplyError::Overlap { .. } => false,
    }
}

/// A refusal tells the fault of the first hunk, as they are given, that does not lie in the file.
/// Where all do, it tells two hunks with a line in common: the one that starts later, and the one
/// that is taken before it.
pub proof fn law_refusals_tell_what_is_wrong(hs: Seq<HunkView>, total: nat) -> (k: int)
    requires
        refusal(hs, total) is Some,
        total <= usize::MAX,
        hs.len() <= usize::MAX,
        forall|i: int|
            0 <= i < hs.len() ==> (#[trigger] hs[i]).line_start <= usize::MAX && hs[i].line_end
                <= usize::MAX,
    ensures
        (exists|i: int| 0 <= i < hs.len() && !lies_in(#[trigger] hs[i], total)) ==> 0 <= k
            < hs.len() && tells_fault(refusal(hs, total)->0, hs[k], total) && forall|j: int|
            0 <= j < k ==> lies_in(#[trigger] hs[j], total),
        (forall|i: int| 0 <= i < hs.len() ==> lies_in(#[trigger] hs[i], total)) ==> ({
            let later = in_order(hs)[k];
            let earlier = in_order(hs)[k - 1];
            &&& 1 <= k < hs.len()
            &&& hs.contains(later)
            &&& hs.contains(earlier)
            &&& earlier.line_start <= later.line_start <= earlier.line_end
            &&& refusal(hs, total) == Some(
                ApplyError::Overlap {
                    place: k as usize,
                    start: later.line_start as usize,
                    end: later.line_end as usize,
                    previous_start: earlier.line_start as usize,
                    previous_end: earlier.line_end as usize,
                },
            )
        }),
{
    broadcast use vstd::seq_lib::group_to_multiset_ensures;

    if first_fault(hs, total, 0) is Some {
        lemma_first_fault(hs, total, 0)
    } else {
        let o = in_order(hs);
        lemma_no_fault(hs, total, 0);
        assert forall|i: int| 0 <= i < hs.len() implies lies_in(#[trigger] hs[i], total) by {
            assert(1 <= hs[i].line_start <= hs[i].line_end <= total);
        }
        law_hunks_are_taken_by_their_start_lines(hs);
        law_ordering_keeps_the_hunks(hs);
        let k = lemma_first_overlap(o, 1);
        assert(o.contains(o[k]) && o.contains(o[k - 1]));
        assert(hs.to_multiset().count(o[k]) > 0 && hs.to_multiset().count(o[k - 1]) > 0);
        assert(o[k - 1].line_start <= o[k].line_start);
        k
    }
}

// ---------------------------------------------------------------------------
// Patching
// ---------------------------------------------------------------------------

/// The text of a line and its line ending.
pub open spec fn split(segment: Seq<char>) -> (Seq<char>, Seq<char>) {
    (text::without_end(segment), segment.skip(text::without_end(segment).len() as int))
}

/// The lines of a text, each with its line ending.
pub open spec fn split_lines(source: Seq<char>) -> Seq<(Seq<char>, Seq<char>)> {
    let segments = text::segments_of(source);
    Seq::new(segments.len(), |k: int| split(segments[k]))
}

/// The line ending of a text: that of its first line, or a newline where that has none.
pub open spec fn line_end(lines: Seq<(Seq<char>, Seq<char>)>) -> Seq<char> {
    if lines.len() > 0 && lines[0].1 == "\r\n"@ {
        "\r\n"@
    } else {
        "\n"@
    }
}

/// The lines of a content, each with the given line ending.
pub open spec fn put_in(content: Seq<char>, end: Seq<char>) -> Seq<(Seq<char>, Seq<char>)> {
    Seq::new(text::lines_of(content).len(), |k: int| (text::lines_of(content)[k], end))
}

/// The lines from `from` on (counted from zero) with the hunks from `i` on put in. Lines outside
/// the hunks stay as they are, with their line endings; `end` ends the lines that are put in.
pub open spec fn patched(
    lines: Seq<(Seq<char>, Seq<char>)>,
    hs: Seq<HunkView>,
    end: Seq<char>,
    from: int,
    i: int,
) -> Seq<(Seq<char>, Seq<char>)>
    decreases hs.len() - i,
{
    if i >= hs.len() {
        lines.subrange(from, lines.len() as int)
    } else {
        lines.subrange(from, hs[i].line_start - 1) + put_in(hs[i].new_content, end) + patched(
            lines,
            hs,
            end,
            hs[i].line_end as int,
            i + 1,
        )
    }
}

/// How many lines the first `n` hunks replace.
pub open spec fn replaced(hs: Seq<HunkView>, n: nat) -> int
    decreases n,
{
    if n == 0 {
        0
    } else {
        replaced(hs, (n - 1) as nat) + (hs[n - 1].line_end - hs[n - 1].line_start + 1)
    }
}

/// How many lines the hunks from `i` on put in.
pub open spec fn inserted(hs: Seq<HunkView>, i: int) -> nat
    decreases hs.len() - i,
{
    if i >= hs.len() {
        0
    } else {
        text::lines_of(hs[i].new_content).len() + inserted(hs, i + 1)
    }
}

/// The lines of a text, with their line endings, with ordered hunks put in.
pub open spec fn patched_lines(source: Seq<char>, hs: Seq<HunkView>) -> Seq<
    (Seq<char>, Seq<char>),
> {
    let lines = split_lines(source);
    patched(lines, hs, line_end(lines), 0, 0)
}

/// Lines as one text, each followed by its line ending.
pub open spec fn rendered(lines: Seq<(Seq<char>, Seq<char>)>) -> Seq<char>
    decreases lines.len(),
{
    if lines.len() == 0 {
        Seq::empty()
    } else {
        rendered(lines.drop_last()) + (lines.last().0 + lines.last().1)
    }
}

/// A text with ordered hunks put in. A line ending stands behind the last line exactly where one
/// did before: that of the last line is left out where the text had none.
pub open spec fn patched_text(source: Seq<char>, hs: Seq<HunkView>) -> Seq<char> {
    let lines = patched_lines(source, hs);
    if source.len() > 0 && source.last() == '\n' {
        if lines.len() == 0 {
            line_end(split_lines(source))
        } else {
            rendered(lines)
        }
    } else if lines.len() == 0 {
        Seq::empty()
    } else {
        rendered(lines.drop_last()) + lines.last().0
    }
}

proof fn lemma_line_end(lines: Seq<(Seq<char>, Seq<char>)>)
    ensures
        line_end(lines).len() > 0,
        line_end(lines).last() == '\n',
{
    reveal_strlit("\r\n");
    reveal_strlit("\n");
}

/// The two parts of a line make up the line.
proof fn lemma_split(segment: Seq<char>)
    ensures
        split(segment).0 + split(segment).1 == segment,
        segment.len() > 0 && segment.last() == '\n' ==> split(segment).1.len() > 0
            && split(segment).1.last() == '\n',
        !(segment.len() > 0 && segment.last() == '\n') ==> split(segment).0 == segment
            && split(segment).1.len() == 0,
{
    let t = text::without_end(segment);
    assert(t =~= segment.take(t.len() as int));
    assert(split(segment).0 + split(segment).1 =~= segment);
}

/// Whether the endings of all lines, or of all but the last, are such as `p` says.
spec fn ends_are(
    lines: Seq<(Seq<char>, Seq<char>)>,
    p: spec_fn(Seq<char>) -> bool,
    last: bool,
) -> bool {
    forall|k: int|
        0 <= k < lines.len() && (last || k < lines.len() - 1) ==> p((#[trigger] lines[k]).1)
}

proof fn lemma_patching_keeps_ends(
    lines: Seq<(Seq<char>, Seq<char>)>,
    hs: Seq<HunkView>,
    end: Seq<char>,
    from: int,
    i: int,
    p: spec_fn(Seq<char>) -> bool,
    last: bool,
)
    requires
        is_applicable(hs, lines.len()),
        0 <= i <= hs.len(),
        0 <= from <= lines.len(),
        i < hs.len() ==> from < hs[i].line_start,
        p(end),
        ends_are(lines, p, last),
    ensures
        ends_are(patched(lines, hs, end, from, i), p, last),
    decreases hs.len() - i,
{
    let all = patched(lines, hs, end, from, i);
    if i < hs.len() {
        if i + 1 < hs.len() {
            assert(hs[i].line_end < hs[i + 1].line_start);
        }
        lemma_patching_keeps_ends(lines, hs, end, hs[i].line_end as int, i + 1, p, last);
        let head = lines.subrange(from, hs[i].line_start - 1);
        let mid = put_in(hs[i].new_content, end);
        let rest = patched(lines, hs, end, hs[i].line_end as int, i + 1);
        assert forall|k: int|
            0 <= k < all.len() && (last || k < all.len() - 1) implies p((#[trigger] all[k]).1) by {
            if k < head.len() {
                assert(all[k] == lines[from + k]);
            } else if k < head.len() + mid.len() {
                assert(all[k] == mid[k - head.len()]);
            } else {
                assert(all[k] == rest[k - head.len() - mid.len()]);
            }
        }
    } else {
        assert forall|k: int|
            0 <= k < all.len() && (last || k < all.len() - 1) implies p((#[trigger] all[k]).1) by {
            assert(all[k] == lines[from + k]);
        }
    }
}

/// A text that ends with a newline does so after patching.
pub proof fn law_a_trailing_newline_stays(source: Seq<char>, hs: Seq<HunkView>)
    requires
        is_applicable(hs, split_lines(source).len()),
        source.len() > 0,
        source.last() == '\n',
    ensures
        patched_text(source, hs).len() > 0,
        patched_text(source, hs).last() == '\n',
{
    let lines = split_lines(source);
    let after = patched_lines(source, hs);
    lemma_line_end(lines);
    text::lemma_segments_make_up_the_text(source, 0);
    let ended = |e: Seq<char>| e.len() > 0 && e.last() == '\n';
    assert forall|k: int| 0 <= k < lines.len() implies ended((#[trigger] lines[k]).1) by {
        lemma_split(text::segments_of(source)[k]);
    }
    lemma_patching_keeps_ends(lines, hs, line_end(lines), 0, 0, ended, true);
    if after.len() > 0 {
        assert(after[after.len() - 1] == after.last());
    }
}

/// The texts of lines, without their line endings.
pub open spec fn contents(lines: Seq<(Seq<char>, Seq<char>)>) -> Seq<Seq<char>> {
    Seq::new(lines.len(), |k: int| lines[k].0)
}

/// The texts of lines from `from` on, with those of the hunks from `i` on put in.
pub open spec fn with_contents(
    lines: Seq<Seq<char>>,
    hs: Seq<HunkView>,
    from: int,
    i: int,
) -> Seq<Seq<char>>
    decreases hs.len() - i,
{
    if i >= hs.len() {
        lines.subrange(from, lines.len() as int)
    } else {
        lines.subrange(from, hs[i].line_start - 1) + text::lines_of(hs[i].new_content)
            + with_contents(lines, hs, hs[i].line_end as int, i + 1)
    }
}

proof fn lemma_contents(
    lines: Seq<(Seq<char>, Seq<char>)>,
    hs: Seq<HunkView>,
    end: Seq<char>,
    from: int,
    i: int,
)
    requires
        is_applicable(hs, lines.len()),
        0 <= i <= hs.len(),
        0 <= from <= lines.len(),
        i < hs.len() ==> from < hs[i].line_start,
    ensures
        contents(patched(lines, hs, end, from, i)) == with_contents(contents(lines), hs, from, i),
    decreases hs.len() - i,
{
    if i < hs.len() {
        if i + 1 < hs.len() {
            assert(hs[i].line_end < hs[i + 1].line_start);
        }
        lemma_contents(lines, hs, end, hs[i].line_end as int, i + 1);
        let head = lines.subrange(from, hs[i].line_start - 1);
        let mid = put_in(hs[i].new_content, end);
        let rest = patched(lines, hs, end, hs[i].line_end as int, i + 1);
        assert(contents(head) =~= contents(lines).subrange(from, hs[i].line_start - 1));
        assert(contents(mid) =~= text::lines_of(hs[i].new_content));
        assert(contents(head + mid + rest) =~= contents(head) + contents(mid) + contents(rest));
    } else {
        assert(contents(patched(lines, hs, end, from, i)) =~= contents(lines).subrange(
            from,
            lines.len() as int,
        ));
    }
}

/// The texts of the lines of a patched text are those of the text, with the lines of the hunks in
/// the place of the lines that these replace.
pub proof fn law_patched_lines_hold_the_contents(source: Seq<char>, hs: Seq<HunkView>)
    requires
        is_applicable(hs, text::lines_of(source).len()),
    ensures
        contents(patched_lines(source, hs)) == with_contents(text::lines_of(source), hs, 0, 0),
{
    let lines = split_lines(source);
    text::lemma_segments_are_lines(source, 0);
    assert(contents(lines) =~= text::lines_of(source));
    if hs.len() > 0 {
        assert(1 <= hs[0].line_start);
    }
    lemma_contents(lines, hs, line_end(lines), 0, 0);
}

/// Where all lines but the last have the same ending, the text is their texts with the ending
/// between them.
proof fn lemma_rendered(lines: Seq<(Seq<char>, Seq<char>)>, end: Seq<char>)
    requires
        lines.len() > 0,
        forall|k: int| 0 <= k < lines.len() - 1 ==> (#[trigger] lines[k]).1 == end,
    ensures
        rendered(lines.drop_last()) + lines.last().0 == text::joined(contents(lines), end),
    decreases lines.len(),
{
    let t = lines.drop_last();
    assert(contents(lines).drop_last() =~= contents(t));
    assert(contents(lines).last() == lines.last().0);
    if t.len() == 0 {
        assert(rendered(t) + lines.last().0 =~= lines.last().0);
    } else {
        assert forall|k: int| 0 <= k < t.len() - 1 implies (#[trigger] t[k]).1 == end by {
            assert(t[k] == lines[k]);
        }
        lemma_rendered(t, end);
        assert(lines[t.len() - 1].1 == end);
        assert(t.last() == lines[t.len() - 1]);
        assert(rendered(t) =~= rendered(t.drop_last()) + t.last().0 + end);
        assert(rendered(t) + lines.last().0 =~= text::joined(contents(t), end) + end
            + lines.last().0);
    }
}

/// A patched text is its lines with the line ending of the text between them, and behind the last
/// where the text had one there: the lines of the text, with the lines of the hunks in the place
/// of those that these replace. This is so where the text has one kind of line ending.
pub proof fn law_a_patched_text_is_its_lines(source: Seq<char>, hs: Seq<HunkView>)
    requires
        is_applicable(hs, text::lines_of(source).len()),
        forall|k: int|
            0 <= k < split_lines(source).len() ==> (#[trigger] split_lines(source)[k]).1
                == line_end(split_lines(source)) || split_lines(source)[k].1.len() == 0,
    ensures
        patched_text(source, hs) == text::joined(
            with_contents(text::lines_of(source), hs, 0, 0),
            line_end(split_lines(source)),
        ) + (if source.len() > 0 && source.last() == '\n' {
            line_end(split_lines(source))
        } else {
            Seq::empty()
        }),
{
    let lines = split_lines(source);
    let segments = text::segments_of(source);
    let end = line_end(lines);
    let after = patched_lines(source, hs);
    law_patched_lines_hold_the_contents(source, hs);
    text::lemma_segments_are_lines(source, 0);
    text::lemma_segments_make_up_the_text(source, 0);
    lemma_line_end(lines);
    if hs.len() > 0 {
        assert(1 <= hs[0].line_start);
    }
    let ended = source.len() > 0 && source.last() == '\n';
    let same = |e: Seq<char>| e == end;
    assert forall|k: int| 0 <= k < lines.len() && (ended || k < lines.len() - 1) implies same(
        (#[trigger] lines[k]).1,
    ) by {
        assert(segments[k].last() == '\n');
        lemma_split(segments[k]);
    }
    lemma_patching_keeps_ends(lines, hs, end, 0, 0, same, ended);
    if after.len() > 0 {
        assert forall|k: int| 0 <= k < after.len() - 1 implies (#[trigger] after[k]).1 == end by {
            assert(same(after[k].1));
        }
        lemma_rendered(after, end);
        if ended {
            assert(same(after[after.len() - 1].1));
            assert(rendered(after) =~= rendered(after.drop_last()) + after.last().0 + end);
        } else {
            assert(patched_text(source, hs) + Seq::<char>::empty() =~= patched_text(source, hs));
        }
    } else {
        assert(contents(after).len() == 0);
        assert(Seq::<char>::empty() + end =~= end);
        assert(Seq::<char>::empty() + Seq::<char>::empty() =~= Seq::<char>::empty());
    }
}

/// How far the hunks in front of hunk `i` move the lines behind them: by the lines that they put
/// in, less those that they take out.
pub open spec fn moved_by(hs: Seq<HunkView>, i: int) -> int
    decreases i,
{
    if i <= 0 {
        0
    } else {
        moved_by(hs, i - 1) + text::lines_of(hs[i - 1].new_content).len() - (hs[i - 1].line_end
            - hs[i - 1].line_start + 1)
    }
}

proof fn lemma_length(lines: Seq<Seq<char>>, hs: Seq<HunkView>, from: int, i: int)
    requires
        is_applicable(hs, lines.len()),
        0 <= i <= hs.len(),
        0 <= from <= lines.len(),
        i < hs.len() ==> from < hs[i].line_start,
    ensures
        with_contents(lines, hs, from, i).len() == lines.len() - from + moved_by(
            hs,
            hs.len() as int,
        ) - moved_by(hs, i),
    decreases hs.len() - i,
{
    if i < hs.len() {
        if i + 1 < hs.len() {
            assert(hs[i].line_end < hs[i + 1].line_start);
        }
        lemma_length(lines, hs, hs[i].line_end as int, i + 1);
    }
}

proof fn lemma_kept_place(
    lines: Seq<Seq<char>>,
    hs: Seq<HunkView>,
    from: int,
    i: int,
    j: int,
    k: int,
)
    requires
        is_applicable(hs, lines.len()),
        0 <= i <= j <= hs.len(),
        0 <= from <= k < lines.len(),
        i < hs.len() ==> from < hs[i].line_start,
        j > i ==> hs[j - 1].line_end <= k,
        j < hs.len() ==> k + 1 < hs[j].line_start,
    ensures
        0 <= k - from + moved_by(hs, j) - moved_by(hs, i) < with_contents(
            lines,
            hs,
            from,
            i,
        ).len(),
        with_contents(lines, hs, from, i)[k - from + moved_by(hs, j) - moved_by(hs, i)]
            == lines[k],
    decreases hs.len() - i,
{
    if i < hs.len() {
        let head = lines.subrange(from, hs[i].line_start - 1);
        let mid = text::lines_of(hs[i].new_content);
        if j == i {
            assert(head[k - from] == lines[k]);
        } else {
            if i + 1 < hs.len() {
                assert(hs[i].line_end < hs[i + 1].line_start);
            }
            if i < j - 1 {
                assert(hs[i].line_end < hs[j - 1].line_start);
                assert(hs[j - 1].line_start <= hs[j - 1].line_end);
            }
            lemma_kept_place(lines, hs, hs[i].line_end as int, i + 1, j, k);
            let rest = with_contents(lines, hs, hs[i].line_end as int, i + 1);
            let q = k - hs[i].line_end + moved_by(hs, j) - moved_by(hs, i + 1);
            let p = k - from + moved_by(hs, j) - moved_by(hs, i);
            assert(p == head.len() + mid.len() + q);
            assert((head + mid + rest)[p] == rest[q]);
        }
    }
}

proof fn lemma_put_place(
    lines: Seq<Seq<char>>,
    hs: Seq<HunkView>,
    from: int,
    i: int,
    j: int,
    m: int,
)
    requires
        is_applicable(hs, lines.len()),
        0 <= i <= j < hs.len(),
        0 <= from <= lines.len(),
        from < hs[i].line_start,
        0 <= m < text::lines_of(hs[j].new_content).len(),
    ensures
        0 <= hs[j].line_start - 1 - from + moved_by(hs, j) - moved_by(hs, i) + m < with_contents(
            lines,
            hs,
            from,
            i,
        ).len(),
        with_contents(lines, hs, from, i)[hs[j].line_start - 1 - from + moved_by(hs, j) - moved_by(
            hs,
            i,
        ) + m] == text::lines_of(hs[j].new_content)[m],
    decreases hs.len() - i,
{
    let head = lines.subrange(from, hs[i].line_start - 1);
    let mid = text::lines_of(hs[i].new_content);
    let rest = with_contents(lines, hs, hs[i].line_end as int, i + 1);
    if j == i {
        assert((head + mid + rest)[head.len() + m] == mid[m]);
    } else {
        assert(hs[i].line_end < hs[i + 1].line_start);
        lemma_put_place(lines, hs, hs[i].line_end as int, i + 1, j, m);
        let q = hs[j].line_start - 1 - hs[i].line_end + moved_by(hs, j) - moved_by(hs, i + 1) + m;
        assert((head + mid + rest)[head.len() + mid.len() + q] == rest[q]);
    }
}

/// A line behind hunk `j - 1` and in front of hunk `j` is found in the patched text as it was,
/// moved by what the hunks in front of it put in and take out. The patched text has as many lines
/// as these move the end of the file.
pub proof fn law_kept_lines_move_by_what_the_hunks_change(
    source: Seq<char>,
    hs: Seq<HunkView>,
    j: int,
    k: int,
)
    requires
        is_applicable(hs, text::lines_of(source).len()),
        0 <= j <= hs.len(),
        0 <= k < text::lines_of(source).len(),
        j > 0 ==> hs[j - 1].line_end <= k,
        j < hs.len() ==> k + 1 < hs[j].line_start,
    ensures
        contents(patched_lines(source, hs)).len() == text::lines_of(source).len() + moved_by(
            hs,
            hs.len() as int,
        ),
        0 <= k + moved_by(hs, j) < contents(patched_lines(source, hs)).len(),
        contents(patched_lines(source, hs))[k + moved_by(hs, j)] == text::lines_of(source)[k],
{
    let lines = text::lines_of(source);
    if hs.len() > 0 {
        assert(1 <= hs[0].line_start);
    }
    law_patched_lines_hold_the_contents(source, hs);
    lemma_length(lines, hs, 0, 0);
    lemma_kept_place(lines, hs, 0, 0, j, k);
}

/// The lines of a hunk stand in the patched text where the lines stood that it replaces, moved by
/// what the hunks in front of it put in and take out.
pub proof fn law_new_lines_stand_where_the_old_ones_stood(
    source: Seq<char>,
    hs: Seq<HunkView>,
    j: int,
    m: int,
)
    requires
        is_applicable(hs, text::lines_of(source).len()),
        0 <= j < hs.len(),
        0 <= m < text::lines_of(hs[j].new_content).len(),
    ensures
        0 <= hs[j].line_start - 1 + moved_by(hs, j) + m < contents(
            patched_lines(source, hs),
        ).len(),
        contents(patched_lines(source, hs))[hs[j].line_start - 1 + moved_by(hs, j) + m]
            == text::lines_of(hs[j].new_content)[m],
{
    assert(1 <= hs[0].line_start);
    law_patched_lines_hold_the_contents(source, hs);
    lemma_put_place(text::lines_of(source), hs, 0, 0, j, m);
}

/// The numbers of the lines that hunks replace.
pub open spec fn covered(hs: Seq<HunkView>) -> Set<int> {
    Set::new(
        |l: int|
            exists|i: int|
                0 <= i < hs.len() && (#[trigger] hs[i]).line_start <= l && l <= hs[i].line_end,
    )
}

proof fn lemma_covered(hs: Seq<HunkView>, total: nat, n: nat)
    requires
        is_applicable(hs, total),
        n <= hs.len(),
    ensures
        covered(hs.take(n as int)).finite(),
        covered(hs.take(n as int)).len() == replaced(hs, n),
    decreases n,
{
    let t = hs.take(n as int);
    if n == 0 {
        assert(covered(t) =~= Set::empty());
    } else {
        lemma_covered(hs, total, (n - 1) as nat);
        let before = hs.take(n - 1);
        let h = hs[n - 1];
        let range = vstd::set_lib::set_int_range(h.line_start as int, (h.line_end + 1) as int);
        vstd::set_lib::lemma_int_range(h.line_start as int, (h.line_end + 1) as int);
        assert forall|l: int| covered(t).contains(l) <==> covered(before).contains(l)
            || range.contains(l) by {
            if covered(t).contains(l) {
                let i = choose|i: int|
                    0 <= i < t.len() && (#[trigger] t[i]).line_start <= l && l <= t[i].line_end;
                if i < n - 1 {
                    assert(before[i] == t[i]);
                }
            }
            if covered(before).contains(l) {
                let i = choose|i: int|
                    0 <= i < before.len() && (#[trigger] before[i]).line_start <= l && l
                        <= before[i].line_end;
                assert(t[i] == before[i]);
            }
            if range.contains(l) {
                assert(t[n - 1] == h);
            }
        }
        assert(covered(t) =~= covered(before) + range);
        assert(covered(before).disjoint(range)) by {
            assert forall|l: int| covered(before).contains(l) implies !range.contains(l) by {
                let i = choose|i: int|
                    0 <= i < before.len() && (#[trigger] before[i]).line_start <= l && l
                        <= before[i].line_end;
                assert(before[i] == hs[i]);
                assert(hs[i].line_end < hs[n - 1].line_start);
            }
        }
        vstd::set_lib::lemma_set_disjoint_lens(covered(before), range);
    }
}

/// The lines that are reported as changed are the lines of the file that some hunk replaces, each
/// counted once.
pub proof fn law_changed_lines_are_those_that_hunks_replace(hs: Seq<HunkView>, total: nat)
    requires
        refusal(hs, total) is None,
    ensures
        covered(hs).finite(),
        replaced(in_order(hs), hs.len()) == covered(hs).len(),
{
    broadcast use vstd::seq_lib::group_to_multiset_ensures;

    let o = in_order(hs);
    law_accepted_hunks_do_not_overlap(hs, total);
    law_ordering_keeps_the_hunks(hs);
    lemma_covered(o, total, o.len());
    assert(o.take(o.len() as int) =~= o);
    assert forall|l: int| covered(hs).contains(l) <==> covered(o).contains(l) by {
        if covered(hs).contains(l) {
            let i = choose|i: int|
                0 <= i < hs.len() && (#[trigger] hs[i]).line_start <= l && l <= hs[i].line_end;
            assert(hs.contains(hs[i]));
            assert(o.to_multiset().count(hs[i]) > 0);
            assert(o.contains(hs[i]));
            assert(o[o.index_of(hs[i])] == hs[i]);
        }
        if covered(o).contains(l) {
            let i = choose|i: int|
                0 <= i < o.len() && (#[trigger] o[i]).line_start <= l && l <= o[i].line_end;
            assert(o.contains(o[i]));
            assert(hs.to_multiset().count(o[i]) > 0);
            assert(hs.contains(o[i]));
            assert(hs[hs.index_of(o[i])] == o[i]);
        }
    }
    assert(covered(hs) =~= covered(o));
}

/// Lines in front of the first hunk stay where they are.
pub proof fn law_lines_in_front_of_the_hunks_stay(
    lines: Seq<(Seq<char>, Seq<char>)>,
    hs: Seq<HunkView>,
    end: Seq<char>,
    k: int,
)
    requires
        is_applicable(hs, lines.len()),
        hs.len() > 0 ==> k < hs[0].line_start - 1,
        0 <= k < lines.len(),
    ensures
        k < patched(lines, hs, end, 0, 0).len(),
        patched(lines, hs, end, 0, 0)[k] == lines[k],
{
    if hs.len() > 0 {
        let head = lines.subrange(0, hs[0].line_start - 1);
        assert(head[k] == lines[k]);
    }
}

/// Lines outside the hunks stay as they are, with their line endings: each is found at its place,
/// moved by what the hunks in front of it put in and take out.
pub proof fn law_lines_outside_the_hunks_stay(
    lines: Seq<(Seq<char>, Seq<char>)>,
    hs: Seq<HunkView>,
    end: Seq<char>,
    from: int,
    i: int,
    k: int,
) -> (p: int)
    requires
        is_applicable(hs, lines.len()),
        0 <= i <= hs.len(),
        0 <= from <= k < lines.len(),
        i < hs.len() ==> from < hs[i].line_start,
        forall|j: int|
            i <= j < hs.len() ==> !((#[trigger] hs[j]).line_start <= k + 1 <= hs[j].line_end),
    ensures
        0 <= p < patched(lines, hs, end, from, i).len(),
        patched(lines, hs, end, from, i)[p] == lines[k],
    decreases hs.len() - i,
{
    if i >= hs.len() {
        k - from
    } else {
        let head = lines.subrange(from, hs[i].line_start - 1);
        let mid = put_in(hs[i].new_content, end);
        if k < hs[i].line_start - 1 {
            assert(head[k - from] == lines[k]);
            k - from
        } else {
            if i + 1 < hs.len() {
                assert(hs[i].line_end < hs[i + 1].line_start);
            }
            let q = law_lines_outside_the_hunks_stay(
                lines,
                hs,
                end,
                hs[i].line_end as int,
                i + 1,
                k,
            );
            head.len() + mid.len() + q
        }
    }
}

/// Patching changes the number of lines by what is put in and what is taken out.
pub proof fn law_patching_accounts_for_every_line(
    lines: Seq<(Seq<char>, Seq<char>)>,
    hs: Seq<HunkView>,
    end: Seq<char>,
    from: int,
    i: int,
)
    requires
        is_applicable(hs, lines.len()),
        0 <= i <= hs.len(),
        0 <= from <= lines.len(),
        i < hs.len() ==> from < hs[i].line_start,
    ensures
        patched(lines, hs, end, from, i).len() == lines.len() - from - (replaced(hs, hs.len())
            - replaced(hs, i as nat)) + inserted(hs, i),
    decreases hs.len() - i,
{
    if i < hs.len() {
        if i + 1 < hs.len() {
            assert(hs[i].line_end < hs[i + 1].line_start);
        }
        law_patching_accounts_for_every_line(lines, hs, end, hs[i].line_end as int, i + 1);
        assert(replaced(hs, (i + 1) as nat) == replaced(hs, i as nat) + (hs[i].line_end
            - hs[i].line_start + 1));
    }
}

/// Hunks that put in the lines that they take out change nothing.
pub proof fn law_replacing_lines_by_themselves_changes_nothing(
    lines: Seq<(Seq<char>, Seq<char>)>,
    hs: Seq<HunkView>,
    end: Seq<char>,
    from: int,
    i: int,
)
    requires
        is_applicable(hs, lines.len()),
        0 <= i <= hs.len(),
        0 <= from <= lines.len(),
        i < hs.len() ==> from < hs[i].line_start,
        forall|j: int|
            0 <= j < hs.len() ==> put_in((#[trigger] hs[j]).new_content, end) == lines.subrange(
                hs[j].line_start - 1,
                hs[j].line_end as int,
            ),
    ensures
        patched(lines, hs, end, from, i) == lines.subrange(from, lines.len() as int),
    decreases hs.len() - i,
{
    if i < hs.len() {
        if i + 1 < hs.len() {
            assert(hs[i].line_end < hs[i + 1].line_start);
        }
        law_replacing_lines_by_themselves_changes_nothing(
            lines,
            hs,
            end,
            hs[i].line_end as int,
            i + 1,
        );
        assert(patched(lines, hs, end, from, i) =~= lines.subrange(from, lines.len() as int));
    }
}

proof fn lemma_rendering_undoes_splitting(segments: Seq<Seq<char>>)
    ensures
        rendered(Seq::new(segments.len(), |k: int| split(segments[k]))) == text::concatenated(
            segments,
        ),
    decreases segments.len(),
{
    let lines = Seq::new(segments.len(), |k: int| split(segments[k]));
    if segments.len() > 0 {
        let t = segments.drop_last();
        lemma_rendering_undoes_splitting(t);
        assert(lines.drop_last() =~= Seq::new(t.len(), |k: int| split(t[k])));
        lemma_split(segments.last());
    }
}

/// Without hunks a text stays as it is.
pub proof fn law_without_hunks_nothing_changes(source: Seq<char>)
    ensures
        patched_text(source, Seq::empty()) == source,
{
    let lines = split_lines(source);
    let segments = text::segments_of(source);
    text::lemma_segments_make_up_the_text(source, 0);
    lemma_rendering_undoes_splitting(segments);
    assert(patched_lines(source, Seq::empty()) =~= lines);
    assert(source.subrange(0, source.len() as int) =~= source);
    if source.len() > 0 && source.last() != '\n' {
        lemma_split(segments.last());
        assert(lines.last() == split(segments.last()));
        assert(rendered(lines) =~= rendered(lines.drop_last()) + lines.last().0);
    }
}

fn sort_hunks(hunks: &Vec<Hunk>) -> (r: Vec<usize>)
    ensures
        r@.len() == hunks@.len(),
        forall|k: int| 0 <= k < r@.len() ==> (#[trigger] r@[k]) < hunks@.len(),
        Seq::new(r@.len(), |k: int| hunks@[r@[k] as int]@) == in_order(hunk_views(hunks@)),
{
    let ghost hs = hunk_views(hunks@);
    let mut r: Vec<usize> = Vec::new();
    let mut i: usize = 0;
    proof {
        assert(Seq::new(r@.len(), |k: int| hunks@[r@[k] as int]@) =~= in_order(hs.take(0)));
    }
    while i < hunks.len()
        invariant
            i <= hunks@.len(),
            hs == hunk_views(hunks@),
            r@.len() == i,
            forall|k: int| 0 <= k < r@.len() ==> (#[trigger] r@[k]) < hunks@.len(),
            Seq::new(r@.len(), |k: int| hunks@[r@[k] as int]@) == in_order(hs.take(i as int)),
        decreases hunks@.len() - i,
    {
        let ghost before = r@;
        let ghost sorted = Seq::new(before.len(), |k: int| hunks@[before[k] as int]@);
        let ghost h = hs[i as int];
        assert(h == hunks@[i as int]@);
        let mut p: usize = r.len();
        proof {
            assert(sorted.take(p as int) =~= sorted);
            assert(placed(sorted, h) =~= placed(sorted.take(p as int), h) + sorted.skip(p as int));
        }
        while p > 0 && hunks[r[p - 1]].line_start > hunks[i].line_start
            invariant
                p <= r@.len(),
                i < hunks@.len(),
                r@ == before,
                h == hunks@[i as int]@,
                forall|k: int| 0 <= k < before.len() ==> (#[trigger] before[k]) < hunks@.len(),
                sorted == Seq::new(before.len(), |k: int| hunks@[before[k] as int]@),
                placed(sorted, h) == placed(sorted.take(p as int), h) + sorted.skip(p as int),
            decreases p,
        {
            proof {
                let t = sorted.take(p as int);
                assert(t.last() == sorted[p - 1]);
                assert(t.drop_last() =~= sorted.take(p - 1));
                assert(placed(t, h) == placed(sorted.take(p - 1), h).push(sorted[p - 1]));
                assert(placed(t, h) + sorted.skip(p as int) =~= placed(sorted.take(p - 1), h)
                    + sorted.skip(p - 1));
            }
            p -= 1;
        }
        r.insert(p, i);
        proof {
            let t = sorted.take(p as int);
            assert(placed(t, h) == t.push(h)) by {
                if p > 0 {
                    assert(t.last() == sorted[p - 1]);
                }
            }
            assert(hs.take(i + 1).drop_last() =~= hs.take(i as int));
            assert(hs.take(i + 1).last() == h);
            assert(Seq::new(r@.len(), |k: int| hunks@[r@[k] as int]@) =~= placed(sorted, h));
        }
        i += 1;
    }
    assert(hs.take(hs.len() as int) =~= hs);
    r
}

fn check_hunks(hunks: &Vec<Hunk>, total: usize) -> (r: Option<ApplyError>)
    ensures
        r == first_fault(hunk_views(hunks@), total as nat, 0),
{
    let ghost hs = hunk_views(hunks@);
    let mut i: usize = 0;
    while i < hunks.len()
        invariant
            i <= hunks@.len(),
            hs == hunk_views(hunks@),
            first_fault(hs, total as nat, 0) == first_fault(hs, total as nat, i as int),
        decreases hunks@.len() - i,
    {
        let h = &hunks[i];
        assert(hs[i as int] == h@);
        if h.line_start < 1 {
            return Some(ApplyError::StartBelowOne { line_start: h.line_start });
        }
        if h.line_end > total {
            return Some(ApplyError::EndPastFile { line_end: h.line_end, total });
        }
        if h.line_start > h.line_end {
            return Some(
                ApplyError::StartPastEnd { line_start: h.line_start, line_end: h.line_end },
            );
        }
        i += 1;
    }
    None
}

fn check_overlaps(hunks: &Vec<Hunk>, order: &Vec<usize>) -> (r: Option<ApplyError>)
    requires
        forall|k: int| 0 <= k < order@.len() ==> (#[trigger] order@[k]) < hunks@.len(),
    ensures
        r == first_overlap(Seq::new(order@.len(), |k: int| hunks@[order@[k] as int]@), 1),
{
    let ghost o = Seq::new(order@.len(), |k: int| hunks@[order@[k] as int]@);
    let mut i: usize = 1;
    while i < order.len()
        invariant
            1 <= i,
            forall|k: int| 0 <= k < order@.len() ==> (#[trigger] order@[k]) < hunks@.len(),
            o == Seq::new(order@.len(), |k: int| hunks@[order@[k] as int]@),
            first_overlap(o, 1) == first_overlap(o, i as int),
        decreases order@.len() - i,
    {
        let h = &hunks[order[i]];
        let previous = &hunks[order[i - 1]];
        assert(o[i as int] == h@);
        assert(o[i - 1] == previous@);
        if h.line_start <= previous.line_end {
            return Some(
                ApplyError::Overlap {
                    place: i,
                    start: h.line_start,
                    end: h.line_end,
                    previous_start: previous.line_start,
                    previous_end: previous.line_end,
                },
            );
        }
        i += 1;
    }
    None
}

/// A line of a text that is patched.
struct Line {
    content: String,
    end: String,
}

impl View for Line {
    type V = (Seq<char>, Seq<char>);

    closed spec fn view(&self) -> (Seq<char>, Seq<char>) {
        (self.content@, self.end@)
    }
}

spec fn line_views(v: Seq<Line>) -> Seq<(Seq<char>, Seq<char>)> {
    Seq::new(v.len(), |k: int| v[k]@)
}

fn split_segments(segments: &Vec<String>) -> (r: Vec<Line>)
    ensures
        line_views(r@) == Seq::new(
            segments@.len(),
            |k: int| split(text::views(segments@)[k]),
        ),
{
    let ghost all = Seq::new(segments@.len(), |k: int| split(text::views(segments@)[k]));
    let mut r: Vec<Line> = Vec::new();
    let mut i: usize = 0;
    while i < segments.len()
        invariant
            i <= segments@.len(),
            all == Seq::new(segments@.len(), |k: int| split(text::views(segments@)[k])),
            line_views(r@) =~= all.take(i as int),
        decreases segments.len() - i,
    {
        let content = text::trim_line_end(segments[i].as_str());
        let v = text::chars_of(segments[i].as_str());
        let stop: usize = text::chars_of(content.as_str()).len();
        let end = text::sub_string(&v, stop, v.len());
        assert(end@ =~= split(segments@[i as int]@).1);
        let ghost before = line_views(r@);
        r.push(Line { content, end });
        assert(line_views(r@) =~= before.push(all[i as int]));
        assert(all.take(i + 1) =~= all.take(i as int).push(all[i as int]));
        i += 1;
    }
    assert(all.take(all.len() as int) =~= all);
    r
}

fn push_range(out: &mut Vec<Line>, lines: &Vec<Line>, from: usize, to: usize)
    requires
        from <= to <= lines@.len(),
    ensures
        line_views(final(out)@) == line_views(old(out)@) + line_views(lines@).subrange(
            from as int,
            to as int,
        ),
{
    let ghost all = line_views(lines@);
    let ghost start = line_views(out@);
    let mut i: usize = from;
    assert(start + all.subrange(from as int, from as int) =~= start);
    while i < to
        invariant
            from <= i <= to <= lines@.len(),
            all == line_views(lines@),
            line_views(out@) == start + all.subrange(from as int, i as int),
        decreases to - i,
    {
        let ghost before = out@;
        out.push(
            Line {
                content: text::copy(lines[i].content.as_str()),
                end: text::copy(lines[i].end.as_str()),
            },
        );
        assert(line_views(out@) =~= line_views(before).push(all[i as int]));
        assert(start + all.subrange(from as int, i + 1) =~= (start + all.subrange(
            from as int,
            i as int,
        )).push(all[i as int]));
        i += 1;
    }
}

fn push_lines(out: &mut Vec<Line>, contents: &Vec<String>, end: &str)
    ensures
        line_views(final(out)@) == line_views(old(out)@) + Seq::new(
            contents@.len(),
            |k: int| (text::views(contents@)[k], end@),
        ),
{
    let ghost more = Seq::new(contents@.len(), |k: int| (text::views(contents@)[k], end@));
    let ghost start = line_views(out@);
    let mut i: usize = 0;
    assert(start + more.take(0) =~= start);
    while i < contents.len()
        invariant
            i <= contents@.len(),
            more == Seq::new(contents@.len(), |k: int| (text::views(contents@)[k], end@)),
            line_views(out@) == start + more.take(i as int),
        decreases contents@.len() - i,
    {
        let ghost before = out@;
        out.push(Line { content: text::copy(contents[i].as_str()), end: text::copy(end) });
        assert(line_views(out@) =~= line_views(before).push(more[i as int]));
        assert(start + more.take(i + 1) =~= (start + more.take(i as int)).push(more[i as int]));
        i += 1;
    }
    assert(more.take(contents@.len() as int) =~= more);
}

fn render(lines: &Vec<Line>, n: usize) -> (r: String)
    requires
        n <= lines@.len(),
    ensures
        r@ == rendered(line_views(lines@).take(n as int)),
{
    let ghost all = line_views(lines@);
    let mut r = String::new();
    let mut i: usize = 0;
    while i < n
        invariant
            i <= n <= lines@.len(),
            all == line_views(lines@),
            r@ == rendered(all.take(i as int)),
        decreases n - i,
    {
        let ghost before = r@;
        r.append(lines[i].content.as_str());
        r.append(lines[i].end.as_str());
        proof {
            assert(all.take(i + 1).drop_last() =~= all.take(i as int));
            assert(all.take(i + 1).last() == lines@[i as int]@);
            assert(r@ =~= before + (lines@[i as int].content@ + lines@[i as int].end@));
        }
        i += 1;
    }
    r
}

proof fn lemma_accepted(hunks: Seq<Hunk>, total: nat)
    ensures
        refusal(hunk_views(hunks), total) is None <==> (forall|i: int|
            0 <= i < hunks.len() ==> 1 <= (#[trigger] hunks[i]).line_start <= hunks[i].line_end
                <= total) && (forall|i: int, j: int|
            0 <= i < j < hunks.len() ==> (#[trigger] hunks[i]).line_end < (
            #[trigger] hunks[j]).line_start || hunks[j].line_end < hunks[i].line_start),
{
    let hs = hunk_views(hunks);
    law_exactly_disjoint_hunks_are_accepted(hs, total);
    assert forall|i: int| 0 <= i < hs.len() implies #[trigger] hs[i] == hunks[i]@ by {}
    if refusal(hs, total) is None {
        assert forall|i: int| 0 <= i < hunks.len() implies 1 <= (#[trigger] hunks[i]).line_start
            <= hunks[i].line_end <= total by {
            assert(lies_in(hs[i], total));
        }
        assert forall|i: int, j: int| 0 <= i < j < hunks.len() implies (
        #[trigger] hunks[i]).line_end < (#[trigger] hunks[j]).line_start || hunks[j].line_end
            < hunks[i].line_start by {
            assert(apart(hs[i], hs[j]));
        }
    } else if forall|i: int| 0 <= i < hs.len() ==> lies_in(#[trigger] hs[i], total) {
        let (i, j) = choose|i: int, j: int|
            0 <= i < j < hs.len() && !apart(#[trigger] hs[i], #[trigger] hs[j]);
        assert(hunks[i].line_end >= hunks[j].line_start);
    } else {
        let i = choose|i: int| 0 <= i < hs.len() && !lies_in(#[trigger] hs[i], total);
        assert(!(1 <= hunks[i].line_start <= hunks[i].line_end <= total));
    }
}

/// Patches the text of a file.
pub fn fast_apply(file_path: &str, source: &str, hunks: &Vec<Hunk>) -> (r: Result<
    Application,
    ApplyError,
>)
    ensures
        match refusal(hunk_views(hunks@), text::lines_of(source@).len()) {
            Some(e) => r == Err::<Application, ApplyError>(e),
            None => r is Ok,
        },
        r matches Ok(a) ==> a.output@ == patched_text(source@, in_order(hunk_views(hunks@)))
            && a.result.status@ == "ok"@ && a.result.file_path@ == file_path@
            && a.result.lines_changed == replaced(in_order(hunk_views(hunks@)), hunks@.len()),
        r is Ok <==> (forall|i: int|
            0 <= i < hunks@.len() ==> 1 <= (#[trigger] hunks@[i]).line_start <= hunks@[i].line_end
                <= text::lines_of(source@).len()) && (forall|i: int, j: int|
            0 <= i < j < hunks@.len() ==> (#[trigger] hunks@[i]).line_end < (
            #[trigger] hunks@[j]).line_start || hunks@[j].line_end < hunks@[i].line_start),
{
    let ghost hs = hunk_views(hunks@);
    let ghost ls = split_lines(source@);
    let segments = text::segments(source);
    let lines = split_segments(&segments);
    let total: usize = lines.len();
    proof {
        assert(text::views(segments@).len() == segments@.len());
        assert(line_views(lines@) =~= ls);
        assert(line_views(lines@).len() == lines@.len());
        text::lemma_segments_are_lines(source@, 0);
        lemma_accepted(hunks@, total as nat);
    }
    if let Some(e) = check_hunks(hunks, total) {
        return Err(e);
    }
    let order = sort_hunks(hunks);
    let ghost o = in_order(hs);
    if let Some(e) = check_overlaps(hunks, &order) {
        return Err(e);
    }
    proof {
        law_accepted_hunks_do_not_overlap(hs, ls.len());
    }
    let end = if total > 0 && text::str_eq(lines[0].end.as_str(), "\r\n") {
        "\r\n"
    } else {
        "\n"
    };
    let mut out: Vec<Line> = Vec::new();
    let mut from: usize = 0;
    let mut changed: usize = 0;
    let mut i: usize = 0;
    proof {
        if total > 0 {
            assert(ls[0] == lines@[0]@);
        }
        assert(end@ == line_end(ls));
        assert(line_views(out@) + patched(ls, o, end@, 0, 0) =~= patched(ls, o, end@, 0, 0));
    }
    while i < order.len()
        invariant
            i <= order@.len(),
            order@.len() == o.len(),
            forall|k: int| 0 <= k < order@.len() ==> (#[trigger] order@[k]) < hunks@.len(),
            o == Seq::new(order@.len(), |k: int| hunks@[order@[k] as int]@),
            ls == line_views(lines@),
            is_applicable(o, ls.len()),
            from <= lines@.len(),
            i < o.len() ==> from < o[i as int].line_start,
            changed == replaced(o, i as nat),
            changed <= from,
            line_views(out@) + patched(ls, o, end@, from as int, i as int) == patched(
                ls,
                o,
                end@,
                0,
                0,
            ),
        decreases order@.len() - i,
    {
        let h = &hunks[order[i]];
        assert(o[i as int] == h@);
        let ghost before = line_views(out@);
        push_range(&mut out, &lines, from, h.line_start - 1);
        let content = text::lines(h.new_content.as_str());
        let ghost mid = line_views(out@);
        push_lines(&mut out, &content, end);
        proof {
            assert(text::views(content@).len() == content@.len());
            assert(line_views(out@) =~= mid + put_in(h.new_content@, end@));
            assert(line_views(out@) + patched(ls, o, end@, h.line_end as int, i + 1) =~= before
                + patched(ls, o, end@, from as int, i as int));
            if i + 1 < o.len() {
                assert(o[i as int].line_end < o[i + 1].line_start);
            }
        }
        changed += h.line_end - h.line_start + 1;
        from = h.line_end;
        i += 1;
    }
    push_range(&mut out, &lines, from, total);
    proof {
        assert(line_views(out@) =~= patched_lines(source@, o));
        assert(line_views(out@).len() == out@.len());
        law_ordering_keeps_the_hunks(hs);
    }
    let ended = text::ends_with(source, "\n");
    proof {
        reveal_strlit("\n");
        let s = source@;
        if s.len() > 0 {
            assert(s.subrange(s.len() - 1, s.len() as int) =~= seq![s.last()]);
            if s.last() == '\n' {
                assert(seq!['\n'] =~= "\n"@);
            } else {
                assert(seq![s.last()][0] != "\n"@[0]);
            }
        }
    }
    let ghost after = line_views(out@);
    let n: usize = out.len();
    assert(after.take(n as int) =~= after);
    let output = if n == 0 {
        if ended {
            text::copy(end)
        } else {
            String::new()
        }
    } else if ended {
        render(&out, n)
    } else {
        let mut t = render(&out, n - 1);
        t.append(out[n - 1].content.as_str());
        assert(after.take(n - 1) =~= after.drop_last());
        t
    };
    Ok(
        Application {
            output,
            result: ApplyResult {
                status: text::copy("ok"),
                lines_changed: changed,
                file_path: text::copy(file_path),
            },
        },
    )
}

/// Hunks are listed one by one, with the lines and the content of each.
pub proof fn law_hunks_are_listed_one_by_one(hunks: Seq<Hunk>, i: int)
    requires
        0 <= i < hunks.len(),
    ensures
        hunk_views(hunks).len() == hunks.len(),
        hunk_views(hunks)[i].line_start == hunks[i].line_start,
        hunk_views(hunks)[i].line_end == hunks[i].line_end,
        hunk_views(hunks)[i].new_content == hunks[i].new_content@,
{
}

} // verus!
