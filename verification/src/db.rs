//! What is stored, and the rules that stored records keep: locks and their expiry, retention,
//! the fusion of search results, and the removal of duplicate decisions.

use crate::cache::registry;
use crate::text;
use vstd::prelude::*;

verus! {

// ---------------------------------------------------------------------------
// Times
// ---------------------------------------------------------------------------

/// A point in time: seconds since the epoch in UTC, and nanoseconds. In a leap second the
/// nanoseconds pass a billion.
#[derive(Clone, Copy, PartialEq, Eq, Structural, Debug)]
pub struct Timestamp {
    pub secs: i64,
    pub nanos: u32,
}

/// The first second that a calendar date can name (the start of the year -262143).
pub const MIN_SECS: i64 = -8_334_601_228_800;

/// The last second that a calendar date can name (the end of the year 262142).
pub const MAX_SECS: i64 = 8_210_266_876_799;

impl Timestamp {
    /// Whether the time has a calendar date.
    pub open spec fn wf(self) -> bool {
        &&& MIN_SECS <= self.secs <= MAX_SECS
        &&& self.nanos < 1_000_000_000 || (self.nanos < 2_000_000_000 && self.secs % 60 == 59)
    }

    /// Whether a time is earlier than another.
    pub open spec fn is_before(self, other: Timestamp) -> bool {
        self.secs < other.secs || (self.secs == other.secs && self.nanos < other.nanos)
    }

    /// A point in time, if it has a calendar date.
    pub fn new(secs: i64, nanos: u32) -> (r: Option<Timestamp>)
        ensures
            r is Some <==> (Timestamp { secs, nanos }).wf(),
            r matches Some(t) ==> t == (Timestamp { secs, nanos }),
    {
        if secs < MIN_SECS || secs > MAX_SECS {
            return None;
        }
        let second: i64 = if secs >= 0 {
            secs % 60
        } else {
            (60 - (-secs) % 60) % 60
        };
        assert(second == secs % 60) by {
            if secs < 0 {
                let a: int = -secs as int;
                assert(a % 60 + 60 * (a / 60) == a);
                assert(secs == -a);
            }
        }
        if nanos < 1_000_000_000 || (nanos < 2_000_000_000 && second == 59) {
            Some(Timestamp { secs, nanos })
        } else {
            None
        }
    }

    /// Whether the time is earlier than another.
    pub fn before(&self, other: &Timestamp) -> (r: bool)
        ensures
            r == self.is_before(*other),
    {
        self.secs < other.secs || (self.secs == other.secs && self.nanos < other.nanos)
    }
}

/// The text that `chrono::DateTime::format` gives for a time in UTC.
pub uninterp spec fn formatted_time(secs: int, nanos: int, format: Seq<char>) -> Seq<char>;

/// Calls `chrono::DateTime::from_timestamp` and `format`, whose value it renders. The text
/// depends on the time and the format alone. `from_timestamp` gives nothing for a time without a
/// calendar date, and rendering panics on a format that is not well-formed.
#[verifier::external_body]
fn format_time(secs: i64, nanos: u32, format: &str) -> (r: String)
    requires
        (Timestamp { secs, nanos }).wf(),
        format@ == "%Y-%m-%d %H:%M UTC"@,
    ensures
        r@ == formatted_time(secs as int, nanos as int, format@),
{
    chrono::DateTime::from_timestamp(secs, nanos).expect("a calendar date").format(format).to_string()
}

/// The text that `chrono::DateTime::to_rfc3339` gives for a time in UTC.
pub uninterp spec fn rfc3339_time(secs: int, nanos: int) -> Seq<char>;

/// Calls `chrono::DateTime::from_timestamp` and `to_rfc3339`. The text depends on the time alone.
/// `from_timestamp` gives nothing for a time without a calendar date.
#[verifier::external_body]
fn rfc3339(secs: i64, nanos: u32) -> (r: String)
    requires
        (Timestamp { secs, nanos }).wf(),
    ensures
        r@ == rfc3339_time(secs as int, nanos as int),
{
    chrono::DateTime::from_timestamp(secs, nanos).expect("a calendar date").to_rfc3339()
}

impl Timestamp {
    /// The time to the minute, as it is shown to agents.
    pub open spec fn minute(self) -> Seq<char> {
        formatted_time(self.secs as int, self.nanos as int, "%Y-%m-%d %H:%M UTC"@)
    }

    /// The time in the form of RFC 3339.
    pub open spec fn exact(self) -> Seq<char> {
        rfc3339_time(self.secs as int, self.nanos as int)
    }

    /// Renders the time to the minute.
    pub fn minute_text(&self) -> (r: String)
        requires
            self.wf(),
        ensures
            r@ == self.minute(),
    {
        format_time(self.secs, self.nanos, "%Y-%m-%d %H:%M UTC")
    }

    /// Renders the time in the form of RFC 3339.
    pub fn exact_text(&self) -> (r: String)
        requires
            self.wf(),
        ensures
            r@ == self.exact(),
    {
        rfc3339(self.secs, self.nanos)
    }
}

// ---------------------------------------------------------------------------
// Records
// ---------------------------------------------------------------------------

/// A memory of an agent.
pub struct MemoryRecord {
    pub key: String,
    pub content: String,
    pub tags: Vec<String>,
    pub project: String,
    pub created_at: Timestamp,
    pub agent_id: Option<String>,
    pub token_saved: Option<usize>,
    pub token_usage: Option<usize>,
}

/// The tokens that an agent saved and used in a project.
pub struct StatsRow {
    pub agent_id: Option<String>,
    pub project: String,
    pub total_saved: usize,
    pub total_usage: usize,
}

/// A file that an agent has locked.
pub struct FileLock {
    pub file_path: String,
    pub agent_id: String,
    pub virtual_branch: String,
    pub locked_at: Timestamp,
}

/// A decision and the files that it governs. The confidence is counted in tenths.
pub struct DecisionRecord {
    pub id: String,
    pub project: String,
    pub decision: String,
    pub context: String,
    pub governed_files: Vec<String>,
    pub confidence: u8,
    pub edit_count: usize,
    pub created_at: Timestamp,
    pub last_confirmed: Timestamp,
}

/// Files that were changed together.
pub struct CoChangeRecord {
    pub id: String,
    pub project: String,
    pub files: Vec<String>,
    pub created_at: Timestamp,
}

// ---------------------------------------------------------------------------
// Locks and retention
// ---------------------------------------------------------------------------

/// How long a lock holds, in seconds.
pub const LOCK_TTL_SECS: i64 = 1800;

/// How long co-changes and token savings are kept, in seconds (thirty days).
pub const RETENTION_SECS: i64 = 2_592_000;

/// Whether a time lies more than some seconds back.
pub open spec fn is_older(t: Timestamp, now: Timestamp, secs: int) -> bool {
    t.secs < now.secs - secs || (t.secs == now.secs - secs && t.nanos < now.nanos)
}

/// Whether a lock has expired.
pub fn lock_expired(lock: &FileLock, now: Timestamp) -> (r: bool)
    ensures
        r == is_older(lock.locked_at, now, LOCK_TTL_SECS as int),
{
    let limit: i128 = now.secs as i128 - LOCK_TTL_SECS as i128;
    let at: i128 = lock.locked_at.secs as i128;
    at < limit || (at == limit && lock.locked_at.nanos < now.nanos)
}

/// A lock that is found counts only as long as it has not expired.
pub fn active_lock(lock: Option<FileLock>, now: Timestamp) -> (r: Option<FileLock>)
    ensures
        r == (match lock {
            Some(l) if !is_older(l.locked_at, now, LOCK_TTL_SECS as int) => lock,
            _ => None,
        }),
{
    match lock {
        Some(l) => if lock_expired(&l, now) {
            None
        } else {
            Some(l)
        },
        None => None,
    }
}

/// The time before which records are dropped.
pub fn retention_cutoff(now: Timestamp) -> (r: Timestamp)
    requires
        now.secs >= MIN_SECS,
    ensures
        r.secs == now.secs - RETENTION_SECS,
        r.nanos == now.nanos,
        forall|t: Timestamp| #[trigger] t.is_before(r) <==> is_older(t, now, RETENTION_SECS as int),
{
    Timestamp { secs: now.secs - RETENTION_SECS, nanos: now.nanos }
}

/// A lock expires when more than its time has passed, to the nanosecond. Leap seconds are left
/// out: in them the nanoseconds run on past a second.
pub proof fn law_locks_expire_after_their_time(locked_at: Timestamp, now: Timestamp)
    requires
        locked_at.nanos < 1_000_000_000,
        now.nanos < 1_000_000_000,
    ensures
        is_older(locked_at, now, LOCK_TTL_SECS as int) <==> (now.secs - locked_at.secs)
            * 1_000_000_000 + (now.nanos - locked_at.nanos) > LOCK_TTL_SECS * 1_000_000_000,
{
}

// ---------------------------------------------------------------------------
// Decisions
// ---------------------------------------------------------------------------

/// The full confidence in a decision, in tenths.
pub const FULL_CONFIDENCE: u8 = 10;

/// The least confidence in a decision, in tenths.
pub const LEAST_CONFIDENCE: u8 = 1;

/// The confidence in a decision after some edits of the files that it governs, in tenths: each
/// edit takes one, and the least stays.
pub open spec fn confidence_after(edits: nat) -> nat {
    if FULL_CONFIDENCE - edits > LEAST_CONFIDENCE {
        (FULL_CONFIDENCE - edits) as nat
    } else {
        LEAST_CONFIDENCE as nat
    }
}

impl DecisionRecord {
    /// The confidence goes by the edits since the decision was confirmed.
    pub open spec fn wf(self) -> bool {
        self.confidence == confidence_after(self.edit_count as nat)
    }

    /// The confidence as it is shown: with two decimals.
    pub open spec fn shown_confidence(self) -> Seq<char> {
        text::decimal((self.confidence / 10) as nat) + "."@ + text::decimal(
            (self.confidence % 10) as nat,
        ) + "0"@
    }

    /// A decision that was just made.
    pub fn new(
        id: String,
        project: String,
        decision: String,
        context: String,
        governed_files: Vec<String>,
        now: Timestamp,
    ) -> (r: DecisionRecord)
        ensures
            r.wf(),
            r == (DecisionRecord {
                id,
                project,
                decision,
                context,
                governed_files,
                confidence: FULL_CONFIDENCE,
                edit_count: 0,
                created_at: now,
                last_confirmed: now,
            }),
    {
        DecisionRecord {
            id,
            project,
            decision,
            context,
            governed_files,
            confidence: FULL_CONFIDENCE,
            edit_count: 0,
            created_at: now,
            last_confirmed: now,
        }
    }

    /// Counts an edit of a file that the decision governs.
    pub fn record_edit(&mut self)
        requires
            old(self).edit_count < usize::MAX,
        ensures
            final(self).wf(),
            *final(self) == (DecisionRecord {
                confidence: confidence_after((old(self).edit_count + 1) as nat) as u8,
                edit_count: (old(self).edit_count + 1) as usize,
                ..*old(self)
            }),
    {
        self.edit_count = self.edit_count + 1;
        self.confidence = if self.edit_count < (FULL_CONFIDENCE - LEAST_CONFIDENCE) as usize {
            FULL_CONFIDENCE - self.edit_count as u8
        } else {
            LEAST_CONFIDENCE
        };
    }

    /// Confirms the decision: it has the full confidence again.
    pub fn confirm(&mut self, now: Timestamp)
        ensures
            final(self).wf(),
            *final(self) == (DecisionRecord {
                confidence: FULL_CONFIDENCE,
                edit_count: 0,
                last_confirmed: now,
                ..*old(self)
            }),
    {
        self.confidence = FULL_CONFIDENCE;
        self.edit_count = 0;
        self.last_confirmed = now;
    }

    /// Records the same decision again, with its context and files as they are now. The
    /// confidence stays as it is.
    pub fn record_again(&mut self, context: String, governed_files: Vec<String>, now: Timestamp)
        ensures
            old(self).wf() ==> final(self).wf(),
            *final(self) == (DecisionRecord {
                context,
                governed_files,
                last_confirmed: now,
                ..*old(self)
            }),
    {
        self.context = context;
        self.governed_files = governed_files;
        self.last_confirmed = now;
    }

    /// Renders the confidence.
    pub fn confidence_text(&self) -> (r: String)
        ensures
            r@ == self.shown_confidence(),
    {
        let mut r = text::decimal_text((self.confidence / 10) as u128);
        r.append(".");
        r.append(text::decimal_text((self.confidence % 10) as u128).as_str());
        r.append("0");
        r
    }
}

/// An edit takes a tenth of the confidence, but never the last one.
pub proof fn law_an_edit_takes_a_tenth(edits: nat)
    ensures
        LEAST_CONFIDENCE <= confidence_after(edits) <= FULL_CONFIDENCE,
        confidence_after(edits) > LEAST_CONFIDENCE ==> confidence_after(edits + 1)
            == confidence_after(edits) - 1,
        confidence_after(edits) == LEAST_CONFIDENCE ==> confidence_after(edits + 1)
            == LEAST_CONFIDENCE,
        confidence_after(0) == FULL_CONFIDENCE,
{
}

/// Whether a decision governs a file.
pub open spec fn governs(d: DecisionRecord, file_path: Seq<char>) -> bool {
    text::views(d.governed_files@).contains(file_path)
}

/// A decision after an edit of a file that it governs.
pub open spec fn edited(d: DecisionRecord) -> DecisionRecord {
    DecisionRecord {
        confidence: confidence_after((d.edit_count + 1) as nat) as u8,
        edit_count: (d.edit_count + 1) as usize,
        ..d
    }
}

/// A decision that was confirmed at `now`.
pub open spec fn confirmed(d: DecisionRecord, now: Timestamp) -> DecisionRecord {
    DecisionRecord { confidence: FULL_CONFIDENCE, edit_count: 0, last_confirmed: now, ..d }
}

/// Decisions after an edit of a file: those that govern it count the edit.
pub open spec fn after_edit(ds: Seq<DecisionRecord>, file_path: Seq<char>) -> Seq<DecisionRecord> {
    ds.map_values(
        |d: DecisionRecord|
            if governs(d, file_path) {
                edited(d)
            } else {
                d
            },
    )
}

/// Decisions after edits of files, one after the other.
pub open spec fn after_edits(ds: Seq<DecisionRecord>, files: Seq<Seq<char>>) -> Seq<DecisionRecord>
    decreases files.len(),
{
    if files.len() == 0 {
        ds
    } else {
        after_edit(after_edits(ds, files.drop_last()), files.last())
    }
}

/// Whether a decision has the id and belongs to the project.
pub open spec fn is_decision_of(d: DecisionRecord, id: Seq<char>, project: Seq<char>) -> bool {
    d.id@ == id && d.project@ == project
}

/// Decisions after the one with the id is confirmed, where it belongs to the project.
pub open spec fn after_confirmation(
    ds: Seq<DecisionRecord>,
    id: Seq<char>,
    project: Seq<char>,
    now: Timestamp,
) -> Seq<DecisionRecord> {
    ds.map_values(
        |d: DecisionRecord|
            if is_decision_of(d, id, project) {
                confirmed(d, now)
            } else {
                d
            },
    )
}

/// Confirms the decision with the id. One of another project stays as it is, and so do all other
/// decisions.
pub fn confirm_decision(
    decisions: &mut Vec<DecisionRecord>,
    decision_id: &str,
    project: &str,
    now: Timestamp,
)
    ensures
        final(decisions)@ == after_confirmation(old(decisions)@, decision_id@, project@, now),
{
    let ghost before = decisions@;
    let ghost after = after_confirmation(before, decision_id@, project@, now);
    let mut i: usize = 0;
    while i < decisions.len()
        invariant
            i <= decisions@.len(),
            decisions@.len() == before.len(),
            after == after_confirmation(before, decision_id@, project@, now),
            forall|k: int| 0 <= k < i ==> #[trigger] decisions@[k] == after[k],
            forall|k: int| i <= k < before.len() ==> #[trigger] decisions@[k] == before[k],
        decreases decisions.len() - i,
    {
        if text::str_eq(decisions[i].id.as_str(), decision_id) && text::str_eq(
            decisions[i].project.as_str(),
            project,
        ) {
            decisions[i].confirm(now);
        }
        i += 1;
    }
    assert(decisions@ =~= after);
}

/// Counts an edit of a file against the decisions that govern it. The others stay as they are.
pub fn increment_file_edits(decisions: &mut Vec<DecisionRecord>, file_path: &str)
    requires
        forall|i: int|
            0 <= i < old(decisions)@.len() && governs(#[trigger] old(decisions)@[i], file_path@)
                ==> old(decisions)@[i].edit_count < usize::MAX,
    ensures
        final(decisions)@ == after_edit(old(decisions)@, file_path@),
{
    let ghost before = decisions@;
    let ghost after = after_edit(before, file_path@);
    let mut i: usize = 0;
    while i < decisions.len()
        invariant
            i <= decisions@.len(),
            decisions@.len() == before.len(),
            after == after_edit(before, file_path@),
            forall|k: int|
                0 <= k < before.len() && governs(#[trigger] before[k], file_path@)
                    ==> before[k].edit_count < usize::MAX,
            forall|k: int| 0 <= k < i ==> #[trigger] decisions@[k] == after[k],
            forall|k: int| i <= k < before.len() ==> #[trigger] decisions@[k] == before[k],
        decreases decisions.len() - i,
    {
        if registry::is_listed(&decisions[i].governed_files, file_path) {
            decisions[i].record_edit();
        }
        i += 1;
    }
    assert(decisions@ =~= after);
}

proof fn lemma_edits_keep_the_rest(ds: Seq<DecisionRecord>, files: Seq<Seq<char>>, i: int)
    requires
        0 <= i < ds.len(),
    ensures
        after_edits(ds, files).len() == ds.len(),
        after_edits(ds, files)[i] == (DecisionRecord {
            confidence: after_edits(ds, files)[i].confidence,
            edit_count: after_edits(ds, files)[i].edit_count,
            ..ds[i]
        }),
    decreases files.len(),
{
    if files.len() > 0 {
        lemma_edits_keep_the_rest(ds, files.drop_last(), i);
    }
}

/// Confirming a decision undoes all edits since: it is as if the decision had been confirmed with
/// no edit before, whatever files were edited and however often.
pub proof fn law_confirming_undoes_edits(
    ds: Seq<DecisionRecord>,
    files: Seq<Seq<char>>,
    id: Seq<char>,
    project: Seq<char>,
    now: Timestamp,
    i: int,
)
    requires
        0 <= i < ds.len(),
        is_decision_of(ds[i], id, project),
    ensures
        after_confirmation(after_edits(ds, files), id, project, now)[i] == after_confirmation(
            ds,
            id,
            project,
            now,
        )[i],
        after_confirmation(ds, id, project, now)[i].wf(),
        after_confirmation(ds, id, project, now)[i].confidence == FULL_CONFIDENCE,
{
    lemma_edits_keep_the_rest(ds, files, i);
}

/// Confirming changes nothing but the decision with the id, and that one only where it belongs to
/// the project.
pub proof fn law_confirming_leaves_the_other_decisions(
    ds: Seq<DecisionRecord>,
    id: Seq<char>,
    project: Seq<char>,
    now: Timestamp,
    i: int,
)
    requires
        0 <= i < ds.len(),
        ds[i].id@ != id || ds[i].project@ != project,
    ensures
        after_confirmation(ds, id, project, now).len() == ds.len(),
        after_confirmation(ds, id, project, now)[i] == ds[i],
{
}

/// The confidence goes by the edits: after edits of a file that a decision governs, it is that
/// of so many edits more.
pub proof fn law_edits_count_against_what_governs(
    ds: Seq<DecisionRecord>,
    files: Seq<Seq<char>>,
    i: int,
)
    requires
        0 <= i < ds.len(),
        ds[i].wf(),
        forall|k: int| 0 <= k < files.len() ==> governs(ds[i], #[trigger] files[k]),
        ds[i].edit_count + files.len() <= usize::MAX,
    ensures
        after_edits(ds, files)[i].edit_count == ds[i].edit_count + files.len(),
        after_edits(ds, files)[i].wf(),
    decreases files.len(),
{
    if files.len() > 0 {
        let t = files.drop_last();
        assert forall|k: int| 0 <= k < t.len() implies governs(ds[i], #[trigger] t[k]) by {
            assert(t[k] == files[k]);
        }
        law_edits_count_against_what_governs(ds, t, i);
        lemma_edits_keep_the_rest(ds, t, i);
        assert(files[files.len() - 1] == files.last());
        assert(governs(ds[i], files.last()));
    }
}

// ---------------------------------------------------------------------------
// Statistics
// ---------------------------------------------------------------------------

/// The query for statistics, with its filters.
pub open spec fn stats_query_text(since: bool, by_project: bool) -> Seq<char> {
    "SELECT agent_id, project, math::sum(token_saved) AS total_saved, math::sum(token_usage) AS total_usage FROM memory"@
        + (if since && by_project {
        " WHERE created_at >= $time_limit AND project = $proj"@
    } else if since {
        " WHERE created_at >= $time_limit"@
    } else if by_project {
        " WHERE project = $proj"@
    } else {
        ""@
    }) + " GROUP BY agent_id, project"@
}

/// Puts together the query for statistics.
pub fn stats_query(since: bool, by_project: bool) -> (r: String)
    ensures
        r@ == stats_query_text(since, by_project),
{
    let mut q = text::copy(
        "SELECT agent_id, project, math::sum(token_saved) AS total_saved, math::sum(token_usage) AS total_usage FROM memory",
    );
    q.append(if since && by_project {
        " WHERE created_at >= $time_limit AND project = $proj"
    } else if since {
        " WHERE created_at >= $time_limit"
    } else if by_project {
        " WHERE project = $proj"
    } else {
        ""
    });
    q.append(" GROUP BY agent_id, project");
    q
}

// ---------------------------------------------------------------------------
// Fusion of search results
// ---------------------------------------------------------------------------

/// How many results of each search are fused.
pub const MAX_CANDIDATES: usize = 20;

/// What ranks are counted from in the score.
pub const RANK_OFFSET: u128 = 60;

/// The unit of scores: the least common multiple of the numbers from 60 to 79, so that the score
/// of each rank is a whole number of units.
pub const SCORE_UNIT: u128 = 205_543_280_508_215_814_964_800;

/// The score of a rank, in parts of the unit: one over the offset and the rank.
pub open spec fn weight(rank: nat) -> nat {
    (SCORE_UNIT as nat) / ((RANK_OFFSET as nat) + rank)
}

proof fn lemma_product(rank: nat, k: nat, w: nat)
    requires
        rank == k,
        w * (RANK_OFFSET as nat + k) == SCORE_UNIT,
    ensures
        weight(rank) * (RANK_OFFSET as nat + rank) == SCORE_UNIT,
{
    let d = RANK_OFFSET as int + k;
    vstd::arithmetic::div_mod::lemma_div_multiples_vanish(w as int, d);
    vstd::arithmetic::mul::lemma_mul_is_commutative(w as int, d);
}

/// The score of each rank is exactly one over the offset and the rank.
pub proof fn law_scores_are_exact(rank: nat)
    requires
        rank < MAX_CANDIDATES,
    ensures
        weight(rank) * (RANK_OFFSET as nat + rank) == SCORE_UNIT,
{
    if rank == 0 {
        lemma_product(rank, 0, 3_425_721_341_803_596_916_080);
    } else if rank == 1 {
        lemma_product(rank, 1, 3_369_561_975_544_521_556_800);
    } else if rank == 2 {
        lemma_product(rank, 2, 3_315_214_201_745_416_370_400);
    } else if rank == 3 {
        lemma_product(rank, 3, 3_262_591_754_098_663_729_600);
    } else if rank == 4 {
        lemma_product(rank, 4, 3_211_613_757_940_872_108_825);
    } else if rank == 5 {
        lemma_product(rank, 5, 3_162_204_315_511_012_537_920);
    } else if rank == 6 {
        lemma_product(rank, 6, 3_114_292_128_912_360_832_800);
    } else if rank == 7 {
        lemma_product(rank, 7, 3_067_810_156_839_042_014_400);
    } else if rank == 8 {
        lemma_product(rank, 8, 3_022_695_301_591_409_043_600);
    } else if rank == 9 {
        lemma_product(rank, 9, 2_978_888_123_307_475_579_200);
    } else if rank == 10 {
        lemma_product(rank, 10, 2_936_332_578_688_797_356_640);
    } else if rank == 11 {
        lemma_product(rank, 11, 2_894_975_781_805_856_548_800);
    } else if rank == 12 {
        lemma_product(rank, 12, 2_854_767_784_836_330_763_400);
    } else if rank == 13 {
        lemma_product(rank, 13, 2_815_661_376_824_874_177_600);
    } else if rank == 14 {
        lemma_product(rank, 14, 2_777_611_898_759_673_175_200);
    } else if rank == 15 {
        lemma_product(rank, 15, 2_740_577_073_442_877_532_864);
    } else if rank == 16 {
        lemma_product(rank, 16, 2_704_516_848_792_313_354_800);
    } else if rank == 17 {
        lemma_product(rank, 17, 2_669_393_253_353_452_142_400);
    } else if rank == 18 {
        lemma_product(rank, 18, 2_635_170_262_925_843_781_600);
    } else if rank == 19 {
        lemma_product(rank, 19, 2_601_813_677_319_187_531_200);
    }
}

/// The place of the entry with a key, from place `i` on.
pub open spec fn place_of(acc: Seq<(nat, MemoryRecord)>, key: Seq<char>, i: int) -> Option<int>
    decreases acc.len() - i,
{
    if i >= acc.len() {
        None
    } else if acc[i].1.key@ == key {
        Some(i)
    } else {
        place_of(acc, key, i + 1)
    }
}

/// One more hit: its score is added where its key occurs, and it is a new entry where not.
pub open spec fn with_hit(acc: Seq<(nat, MemoryRecord)>, record: MemoryRecord, score: nat) -> Seq<
    (nat, MemoryRecord),
> {
    match place_of(acc, record.key@, 0) {
        Some(i) => acc.update(i, (acc[i].0 + score, acc[i].1)),
        None => acc.push((score, record)),
    }
}

/// The entries with the first `n` records of a list, by their rank.
pub open spec fn with_list(
    acc: Seq<(nat, MemoryRecord)>,
    list: Seq<MemoryRecord>,
    n: nat,
) -> Seq<(nat, MemoryRecord)>
    decreases n,
{
    if n == 0 {
        acc
    } else {
        with_hit(with_list(acc, list, (n - 1) as nat), list[n - 1], weight((n - 1) as nat))
    }
}

/// How many records of a list count.
pub open spec fn candidates(list: Seq<MemoryRecord>) -> nat {
    if list.len() <= MAX_CANDIDATES {
        list.len()
    } else {
        MAX_CANDIDATES as nat
    }
}

/// The entries of both lists, those of the first list in front.
pub open spec fn scored(first: Seq<MemoryRecord>, second: Seq<MemoryRecord>) -> Seq<
    (nat, MemoryRecord),
> {
    with_list(with_list(Seq::empty(), first, candidates(first)), second, candidates(second))
}

/// A list by falling score with one more entry, behind those with the same score.
pub open spec fn ranked_with(
    ranked: Seq<(nat, MemoryRecord)>,
    e: (nat, MemoryRecord),
) -> Seq<(nat, MemoryRecord)>
    decreases ranked.len(),
{
    if ranked.len() == 0 || ranked.last().0 >= e.0 {
        ranked.push(e)
    } else {
        ranked_with(ranked.drop_last(), e).push(ranked.last())
    }
}

/// Entries by falling score. Those with the same score keep their order.
pub open spec fn by_score(acc: Seq<(nat, MemoryRecord)>) -> Seq<(nat, MemoryRecord)>
    decreases acc.len(),
{
    if acc.len() == 0 {
        Seq::empty()
    } else {
        ranked_with(by_score(acc.drop_last()), acc.last())
    }
}

/// The records of the best entries of both lists.
pub open spec fn fused(
    first: Seq<MemoryRecord>,
    second: Seq<MemoryRecord>,
    limit: nat,
) -> Seq<MemoryRecord> {
    let best = by_score(scored(first, second));
    Seq::new(
        if best.len() <= limit {
            best.len()
        } else {
            limit
        },
        |i: int| best[i].1,
    )
}

/// The sum of the scores of the ranks below `n` at which a key stands in a list.
pub open spec fn key_score(list: Seq<MemoryRecord>, key: Seq<char>, n: nat) -> nat
    decreases n,
{
    if n == 0 {
        0
    } else {
        key_score(list, key, (n - 1) as nat) + (if list[n - 1].key@ == key {
            weight((n - 1) as nat)
        } else {
            0
        })
    }
}

proof fn lemma_place_of(acc: Seq<(nat, MemoryRecord)>, key: Seq<char>, i: int)
    requires
        0 <= i <= acc.len(),
    ensures
        match place_of(acc, key, i) {
            Some(k) => i <= k < acc.len() && acc[k].1.key@ == key,
            None => forall|k: int| i <= k < acc.len() ==> (#[trigger] acc[k]).1.key@ != key,
        },
    decreases acc.len() - i,
{
    if i < acc.len() && acc[i].1.key@ != key {
        lemma_place_of(acc, key, i + 1);
    }
}

spec fn keys_distinct(acc: Seq<(nat, MemoryRecord)>) -> bool {
    forall|i: int, j: int|
        0 <= i < j < acc.len() ==> (#[trigger] acc[i]).1.key@ != (#[trigger] acc[j]).1.key@
}

spec fn score_in(acc: Seq<(nat, MemoryRecord)>, key: Seq<char>) -> nat {
    match place_of(acc, key, 0) {
        Some(i) => acc[i].0,
        None => 0,
    }
}

proof fn lemma_with_hit(acc: Seq<(nat, MemoryRecord)>, record: MemoryRecord, w: nat, key: Seq<char>)
    requires
        keys_distinct(acc),
    ensures
        keys_distinct(with_hit(acc, record, w)),
        score_in(with_hit(acc, record, w), key) == score_in(acc, key) + (if record.key@ == key {
            w
        } else {
            0
        }),
        (place_of(with_hit(acc, record, w), key, 0) is Some) == (place_of(acc, key, 0) is Some
            || record.key@ == key),
{
    let now = with_hit(acc, record, w);
    lemma_place_of(acc, record.key@, 0);
    lemma_place_of(acc, key, 0);
    match place_of(acc, record.key@, 0) {
        Some(i) => {
            assert forall|k: int| 0 <= k < now.len() implies (#[trigger] now[k]).1 == acc[k].1 by {}
            assert forall|a: int, b: int| 0 <= a < b < now.len() implies (#[trigger] now[a]).1.key@
                != (#[trigger] now[b]).1.key@ by {
                assert(acc[a].1.key@ != acc[b].1.key@);
            }
        },
        None => {
            assert forall|a: int, b: int| 0 <= a < b < now.len() implies (#[trigger] now[a]).1.key@
                != (#[trigger] now[b]).1.key@ by {
                assert(now[a] == acc[a]);
                if b < acc.len() {
                    assert(now[b] == acc[b]);
                }
            }
        },
    }
    lemma_place_of(now, key, 0);
    if let Some(k) = place_of(acc, key, 0) {
        assert(now[k].1.key@ == key);
        let j = place_of(now, key, 0)->0;
        assert(j == k) by {
            if j < k {
                assert(now[j].1.key@ != now[k].1.key@);
            } else if k < j {
                assert(now[k].1.key@ != now[j].1.key@);
            }
        }
    } else if record.key@ == key {
        assert(now[acc.len() as int].1.key@ == key);
        let j = place_of(now, key, 0)->0;
        assert(j == acc.len()) by {
            if j < acc.len() {
                assert(now[j] == acc[j]);
            }
        }
    } else if let Some(j) = place_of(now, key, 0) {
        match place_of(acc, record.key@, 0) {
            Some(_) => {
                assert(now[j].1 == acc[j].1);
                assert(acc[j].1.key@ != key);
            },
            None => {
                if j < acc.len() {
                    assert(now[j] == acc[j]);
                    assert(acc[j].1.key@ != key);
                }
            },
        }
    }
}

proof fn lemma_with_list(
    acc: Seq<(nat, MemoryRecord)>,
    list: Seq<MemoryRecord>,
    n: nat,
    key: Seq<char>,
)
    requires
        keys_distinct(acc),
        n <= list.len(),
    ensures
        keys_distinct(with_list(acc, list, n)),
        score_in(with_list(acc, list, n), key) == score_in(acc, key) + key_score(list, key, n),
        (place_of(with_list(acc, list, n), key, 0) is Some) == (place_of(acc, key, 0) is Some
            || exists|r: int| 0 <= r < n && (#[trigger] list[r]).key@ == key),
    decreases n,
{
    if n > 0 {
        lemma_with_list(acc, list, (n - 1) as nat, key);
        lemma_with_hit(
            with_list(acc, list, (n - 1) as nat),
            list[n - 1],
            weight((n - 1) as nat),
            key,
        );
        if exists|r: int| 0 <= r < n && (#[trigger] list[r]).key@ == key {
            let r = choose|r: int| 0 <= r < n && (#[trigger] list[r]).key@ == key;
            if r < n - 1 {
                assert(list[r].key@ == key);
            }
        }
    }
}

/// Each key has one entry. Its score is the sum over both lists of one over the offset and the
/// rank, and exactly the keys of the candidates have an entry.
pub proof fn law_scores_are_sums_over_both_lists(
    first: Seq<MemoryRecord>,
    second: Seq<MemoryRecord>,
    i: int,
)
    requires
        0 <= i < scored(first, second).len(),
    ensures
        scored(first, second)[i].0 == key_score(
            first,
            scored(first, second)[i].1.key@,
            candidates(first),
        ) + key_score(second, scored(first, second)[i].1.key@, candidates(second)),
        forall|j: int|
            0 <= j < scored(first, second).len() && j != i ==> (#[trigger] scored(
                first,
                second,
            )[j]).1.key@ != scored(first, second)[i].1.key@,
{
    let all = scored(first, second);
    let key = all[i].1.key@;
    let empty = Seq::<(nat, MemoryRecord)>::empty();
    lemma_with_list(empty, first, candidates(first), key);
    lemma_with_list(
        with_list(empty, first, candidates(first)),
        second,
        candidates(second),
        key,
    );
    lemma_place_of(all, key, 0);
    let k = place_of(all, key, 0)->0;
    assert(k == i) by {
        if k < i {
            assert(all[k].1.key@ != all[i].1.key@);
        } else if i < k {
            assert(all[i].1.key@ != all[k].1.key@);
        }
    }
    assert forall|j: int| 0 <= j < all.len() && j != i implies (#[trigger] all[j]).1.key@
        != key by {
        if j < i {
            assert(all[j].1.key@ != all[i].1.key@);
        } else {
            assert(all[i].1.key@ != all[j].1.key@);
        }
    }
}

/// Every candidate of either list has an entry.
pub proof fn law_no_candidate_is_lost(
    first: Seq<MemoryRecord>,
    second: Seq<MemoryRecord>,
    key: Seq<char>,
)
    ensures
        (exists|i: int| 0 <= i < scored(first, second).len() && (#[trigger] scored(
            first,
            second,
        )[i]).1.key@ == key) <==> ((exists|r: int|
            0 <= r < candidates(first) && (#[trigger] first[r]).key@ == key) || (exists|r: int|
            0 <= r < candidates(second) && (#[trigger] second[r]).key@ == key)),
{
    let all = scored(first, second);
    let empty = Seq::<(nat, MemoryRecord)>::empty();
    lemma_with_list(empty, first, candidates(first), key);
    lemma_with_list(
        with_list(empty, first, candidates(first)),
        second,
        candidates(second),
        key,
    );
    lemma_place_of(all, key, 0);
    if exists|i: int| 0 <= i < all.len() && (#[trigger] all[i]).1.key@ == key {
        let i = choose|i: int| 0 <= i < all.len() && (#[trigger] all[i]).1.key@ == key;
        assert(place_of(all, key, 0) is Some);
    }
    if let Some(k) = place_of(all, key, 0) {
        assert(all[k].1.key@ == key);
    }
}

spec fn falling(s: Seq<(nat, MemoryRecord)>) -> bool {
    forall|i: int, j: int| 0 <= i < j < s.len() ==> (#[trigger] s[i]).0 >= (#[trigger] s[j]).0
}

proof fn lemma_ranked_with(ranked: Seq<(nat, MemoryRecord)>, e: (nat, MemoryRecord))
    requires
        falling(ranked),
    ensures
        falling(ranked_with(ranked, e)),
        ranked_with(ranked, e).len() == ranked.len() + 1,
        ranked_with(ranked, e).to_multiset() == ranked.to_multiset().insert(e),
    decreases ranked.len(),
{
    broadcast use vstd::seq_lib::group_to_multiset_ensures;

    let now = ranked_with(ranked, e);
    if ranked.len() == 0 || ranked.last().0 >= e.0 {
        assert forall|i: int, j: int| 0 <= i < j < now.len() implies (#[trigger] now[i]).0 >= (
        #[trigger] now[j]).0 by {
            assert(now[i] == ranked[i]);
            if j < ranked.len() {
                assert(now[j] == ranked[j]);
            } else if i < ranked.len() - 1 {
                assert(ranked[i].0 >= ranked[ranked.len() - 1].0);
            }
        }
    } else {
        let rest = ranked.drop_last();
        assert(falling(rest)) by {
            assert forall|i: int, j: int| 0 <= i < j < rest.len() implies (#[trigger] rest[i]).0
                >= (#[trigger] rest[j]).0 by {
                assert(rest[i] == ranked[i] && rest[j] == ranked[j]);
            }
        }
        lemma_ranked_with(rest, e);
        let inner = ranked_with(rest, e);
        assert(ranked =~= rest.push(ranked.last()));
        assert(now.to_multiset() =~= ranked.to_multiset().insert(e));
        assert forall|i: int, j: int| 0 <= i < j < now.len() implies (#[trigger] now[i]).0 >= (
        #[trigger] now[j]).0 by {
            if j < inner.len() {
                assert(now[i] == inner[i] && now[j] == inner[j]);
            } else {
                lemma_lower_bound(rest, e, ranked.last().0);
                assert(now[i] == inner[i]);
            }
        }
    }
}

proof fn lemma_lower_bound(ranked: Seq<(nat, MemoryRecord)>, e: (nat, MemoryRecord), low: nat)
    requires
        e.0 >= low,
        forall|i: int| 0 <= i < ranked.len() ==> (#[trigger] ranked[i]).0 >= low,
    ensures
        forall|i: int|
            0 <= i < ranked_with(ranked, e).len() ==> (#[trigger] ranked_with(ranked, e)[i]).0
                >= low,
    decreases ranked.len(),
{
    if ranked.len() == 0 || ranked.last().0 >= e.0 {
    } else {
        let rest = ranked.drop_last();
        assert forall|i: int| 0 <= i < rest.len() implies (#[trigger] rest[i]).0 >= low by {
            assert(rest[i] == ranked[i]);
        }
        lemma_lower_bound(rest, e, low);
        let now = ranked_with(ranked, e);
        assert forall|i: int| 0 <= i < now.len() implies (#[trigger] now[i]).0 >= low by {
            if i < now.len() - 1 {
                assert(now[i] == ranked_with(rest, e)[i]);
            } else {
                assert(now[i] == ranked[ranked.len() - 1]);
            }
        }
    }
}

/// Ranking neither adds nor loses an entry, and no entry stands behind one with a lower score.
pub proof fn law_ranking_is_by_falling_score(acc: Seq<(nat, MemoryRecord)>)
    ensures
        by_score(acc).len() == acc.len(),
        by_score(acc).to_multiset() == acc.to_multiset(),
        forall|i: int, j: int|
            0 <= i < j < acc.len() ==> (#[trigger] by_score(acc)[i]).0 >= (#[trigger] by_score(
                acc,
            )[j]).0,
    decreases acc.len(),
{
    broadcast use vstd::seq_lib::group_to_multiset_ensures;

    lemma_by_score_falls(acc);
    if acc.len() > 0 {
        law_ranking_is_by_falling_score(acc.drop_last());
        lemma_ranked_with(by_score(acc.drop_last()), acc.last());
        assert(acc =~= acc.drop_last().push(acc.last()));
    } else {
        assert(acc =~= Seq::empty());
    }
}

proof fn lemma_by_score_falls(acc: Seq<(nat, MemoryRecord)>)
    ensures
        falling(by_score(acc)),
        by_score(acc).len() == acc.len(),
    decreases acc.len(),
{
    if acc.len() > 0 {
        lemma_by_score_falls(acc.drop_last());
        lemma_ranked_with(by_score(acc.drop_last()), acc.last());
    }
}

proof fn lemma_ranked_keys_differ(acc: Seq<(nat, MemoryRecord)>, i: int, j: int)
    requires
        keys_distinct(acc),
        0 <= i < j < acc.len(),
    ensures
        by_score(acc)[i].1.key@ != by_score(acc)[j].1.key@,
{
    broadcast use vstd::seq_lib::group_to_multiset_ensures;

    let best = by_score(acc);
    law_ranking_is_by_falling_score(acc);
    assert(acc.no_duplicates()) by {
        assert forall|a: int, b: int| 0 <= a < b < acc.len() implies acc[a] != acc[b] by {
            assert(acc[a].1.key@ != acc[b].1.key@);
        }
    }
    acc.lemma_multiset_has_no_duplicates();
    best.lemma_multiset_has_no_duplicates_conv();
    assert(best.to_multiset().contains(best[i]));
    assert(best.to_multiset().contains(best[j]));
    let a = choose|a: int| 0 <= a < acc.len() && acc[a] == best[i];
    let b = choose|b: int| 0 <= b < acc.len() && acc[b] == best[j];
    assert(acc.contains(best[i]) && acc.contains(best[j]));
    assert(a != b);
    if a < b {
        assert(acc[a].1.key@ != acc[b].1.key@);
    } else {
        assert(acc[b].1.key@ != acc[a].1.key@);
    }
}

/// No two results have the same key, and there are as many as the limit allows.
pub proof fn law_results_are_different(
    first: Seq<MemoryRecord>,
    second: Seq<MemoryRecord>,
    limit: nat,
    i: int,
    j: int,
)
    requires
        0 <= i < j < fused(first, second, limit).len(),
    ensures
        fused(first, second, limit)[i].key@ != fused(first, second, limit)[j].key@,
        fused(first, second, limit).len() <= limit,
        fused(first, second, limit).len() < limit ==> fused(first, second, limit).len() == scored(
            first,
            second,
        ).len(),
{
    let all = scored(first, second);
    let empty = Seq::<(nat, MemoryRecord)>::empty();
    let key = Seq::<char>::empty();
    lemma_with_list(empty, first, candidates(first), key);
    lemma_with_list(
        with_list(empty, first, candidates(first)),
        second,
        candidates(second),
        key,
    );
    law_ranking_is_by_falling_score(all);
    lemma_ranked_keys_differ(all, i, j);
}

/// How many records at the head of a list take part in the fusion: twenty, or all of a shorter
/// list.
pub open spec fn head_len(list: Seq<MemoryRecord>) -> nat {
    if list.len() <= 20 {
        list.len()
    } else {
        20
    }
}

/// Whether a key occurs at the head of a list.
pub open spec fn in_head(list: Seq<MemoryRecord>, key: Seq<char>) -> bool {
    exists|r: int| 0 <= r < head_len(list) && (#[trigger] list[r]).key@ == key
}

/// The score of a key in both lists: the sum of one over sixty and the rank, over the ranks at
/// which the key stands.
pub open spec fn total_score(
    first: Seq<MemoryRecord>,
    second: Seq<MemoryRecord>,
    key: Seq<char>,
) -> nat {
    key_score(first, key, head_len(first)) + key_score(second, key, head_len(second))
}

/// The score falls with the rank as one over sixty and the rank does.
pub proof fn law_the_score_is_one_over_sixty_and_the_rank(rank: nat, other: nat)
    requires
        rank < 20,
        other < 20,
    ensures
        weight(rank) > 0,
        weight(rank) * (60 + rank) == weight(other) * (60 + other),
        rank < other ==> weight(rank) > weight(other),
{
    law_scores_are_exact(rank);
    law_scores_are_exact(other);
    assert(weight(rank) > 0) by (nonlinear_arith)
        requires
            weight(rank) * (60 + rank) == 205_543_280_508_215_814_964_800,
    ;
    if rank < other {
        assert(weight(rank) > weight(other)) by (nonlinear_arith)
            requires
                weight(rank) * (60 + rank) == weight(other) * (60 + other),
                rank < other,
                weight(rank) > 0,
        ;
    }
}

proof fn lemma_entry(first: Seq<MemoryRecord>, second: Seq<MemoryRecord>, e: (nat, MemoryRecord))
    requires
        by_score(scored(first, second)).contains(e),
    ensures
        e.0 == total_score(first, second, e.1.key@),
        in_head(first, e.1.key@) || in_head(second, e.1.key@),
{
    broadcast use vstd::seq_lib::group_to_multiset_ensures;

    let all = scored(first, second);
    law_ranking_is_by_falling_score(all);
    assert(by_score(all).to_multiset().count(e) > 0);
    assert(all.to_multiset().count(e) > 0);
    assert(all.contains(e));
    let i = all.index_of(e);
    law_scores_are_sums_over_both_lists(first, second, i);
    law_no_candidate_is_lost(first, second, e.1.key@);
    assert(all[i].1.key@ == e.1.key@);
}

proof fn lemma_best(first: Seq<MemoryRecord>, second: Seq<MemoryRecord>, i: int)
    requires
        0 <= i < scored(first, second).len(),
    ensures
        by_score(scored(first, second)).len() == scored(first, second).len(),
        by_score(scored(first, second))[i].0 == total_score(
            first,
            second,
            by_score(scored(first, second))[i].1.key@,
        ),
        in_head(first, by_score(scored(first, second))[i].1.key@) || in_head(
            second,
            by_score(scored(first, second))[i].1.key@,
        ),
{
    let best = by_score(scored(first, second));
    law_ranking_is_by_falling_score(scored(first, second));
    assert(best.contains(best[i]));
    lemma_entry(first, second, best[i]);
}

/// The results stand by falling score, and each is a candidate of one of the lists.
pub proof fn law_results_stand_by_falling_score(
    first: Seq<MemoryRecord>,
    second: Seq<MemoryRecord>,
    limit: nat,
    i: int,
    j: int,
)
    requires
        0 <= i <= j < fused(first, second, limit).len(),
    ensures
        total_score(first, second, fused(first, second, limit)[i].key@) >= total_score(
            first,
            second,
            fused(first, second, limit)[j].key@,
        ),
        in_head(first, fused(first, second, limit)[i].key@) || in_head(
            second,
            fused(first, second, limit)[i].key@,
        ),
        i < j ==> fused(first, second, limit)[i].key@ != fused(first, second, limit)[j].key@,
        fused(first, second, limit).len() <= limit,
{
    law_ranking_is_by_falling_score(scored(first, second));
    lemma_best(first, second, i);
    lemma_best(first, second, j);
    if i < j {
        law_results_are_different(first, second, limit, i, j);
    }
}

/// A candidate is left out only where there are as many results as are asked for, and its score
/// is then no higher than that of any result: the best results are returned.
pub proof fn law_what_is_left_out_scores_no_higher(
    first: Seq<MemoryRecord>,
    second: Seq<MemoryRecord>,
    limit: nat,
    key: Seq<char>,
)
    requires
        in_head(first, key) || in_head(second, key),
        forall|i: int|
            0 <= i < fused(first, second, limit).len() ==> (#[trigger] fused(
                first,
                second,
                limit,
            )[i]).key@ != key,
    ensures
        fused(first, second, limit).len() == limit,
        forall|i: int|
            0 <= i < fused(first, second, limit).len() ==> total_score(
                first,
                second,
                (#[trigger] fused(first, second, limit)[i]).key@,
            ) >= total_score(first, second, key),
{
    broadcast use vstd::seq_lib::group_to_multiset_ensures;

    let all = scored(first, second);
    let best = by_score(all);
    let r = fused(first, second, limit);
    law_ranking_is_by_falling_score(all);
    law_no_candidate_is_lost(first, second, key);
    assert(candidates(first) == head_len(first) && candidates(second) == head_len(second));
    let a = choose|i: int| 0 <= i < all.len() && (#[trigger] all[i]).1.key@ == key;
    assert(all.contains(all[a]));
    assert(best.to_multiset().count(all[a]) > 0);
    assert(best.contains(all[a]));
    let b = best.index_of(all[a]);
    assert(best[b].1.key@ == key);
    lemma_best(first, second, b);
    assert(b >= r.len()) by {
        if b < r.len() {
            assert(r[b].key@ == key);
        }
    }
    assert forall|i: int| 0 <= i < r.len() implies total_score(
        first,
        second,
        (#[trigger] r[i]).key@,
    ) >= total_score(first, second, key) by {
        lemma_best(first, second, i);
        assert(best[i].0 >= best[b].0);
    }
}

/// Whether a record is the first of a list with its key, among the first `n`.
spec fn is_first(list: Seq<MemoryRecord>, n: nat, record: MemoryRecord) -> bool {
    exists|r: int|
        0 <= r < n && (#[trigger] list[r]) == record && forall|q: int|
            0 <= q < r ==> (#[trigger] list[q]).key@ != record.key@
}

spec fn has_key(acc: Seq<(nat, MemoryRecord)>, key: Seq<char>) -> bool {
    exists|i: int| 0 <= i < acc.len() && (#[trigger] acc[i]).1.key@ == key
}

spec fn has_record(acc: Seq<(nat, MemoryRecord)>, record: MemoryRecord) -> bool {
    exists|i: int| 0 <= i < acc.len() && (#[trigger] acc[i]).1 == record
}

proof fn lemma_list_records(acc: Seq<(nat, MemoryRecord)>, list: Seq<MemoryRecord>, n: nat)
    requires
        n <= list.len(),
    ensures
        forall|i: int|
            0 <= i < with_list(acc, list, n).len() ==> has_record(
                acc,
                (#[trigger] with_list(acc, list, n)[i]).1,
            ) || (!has_key(acc, with_list(acc, list, n)[i].1.key@) && is_first(
                list,
                n,
                with_list(acc, list, n)[i].1,
            )),
        forall|key: Seq<char>| #[trigger] has_key(acc, key) ==> has_key(with_list(acc, list, n), key),
        forall|r: int| 0 <= r < n ==> has_key(with_list(acc, list, n), (#[trigger] list[r]).key@),
    decreases n,
{
    let now = with_list(acc, list, n);
    if n == 0 {
        assert forall|i: int| 0 <= i < now.len() implies has_record(
            acc,
            (#[trigger] now[i]).1,
        ) || (!has_key(acc, now[i].1.key@) && is_first(list, n, now[i].1)) by {
            assert(acc[i].1 == now[i].1);
        }
    } else {
        let before = with_list(acc, list, (n - 1) as nat);
        let rec = list[n - 1];
        lemma_list_records(acc, list, (n - 1) as nat);
        lemma_place_of(before, rec.key@, 0);
        let found = place_of(before, rec.key@, 0);
        assert forall|key: Seq<char>| #[trigger] has_key(before, key) implies has_key(
            now,
            key,
        ) by {
            let i = choose|i: int| 0 <= i < before.len() && (#[trigger] before[i]).1.key@ == key;
            assert(now[i].1.key@ == key);
        }
        assert(has_key(now, rec.key@)) by {
            if let Some(i) = found {
                assert(now[i].1.key@ == rec.key@);
            } else {
                assert(now[before.len() as int].1.key@ == rec.key@);
            }
        }
        assert forall|i: int| 0 <= i < now.len() implies has_record(
            acc,
            (#[trigger] now[i]).1,
        ) || (!has_key(acc, now[i].1.key@) && is_first(list, n, now[i].1)) by {
            if i < before.len() {
                assert(now[i].1 == before[i].1);
                if !has_record(acc, before[i].1) {
                    assert(is_first(list, (n - 1) as nat, before[i].1));
                    let r = choose|r: int|
                        0 <= r < n - 1 && (#[trigger] list[r]) == before[i].1 && forall|q: int|
                            0 <= q < r ==> (#[trigger] list[q]).key@ != before[i].1.key@;
                    assert(list[r] == now[i].1);
                }
            } else {
                assert(found is None);
                assert(now[i].1 == rec);
                if has_key(acc, rec.key@) {
                    assert(has_key(before, rec.key@));
                    let k = choose|k: int|
                        0 <= k < before.len() && (#[trigger] before[k]).1.key@ == rec.key@;
                    assert(false);
                }
                assert forall|q: int| 0 <= q < n - 1 implies (#[trigger] list[q]).key@
                    != rec.key@ by {
                    assert(has_key(before, list[q].key@));
                    let k = choose|k: int|
                        0 <= k < before.len() && (#[trigger] before[k]).1.key@ == list[q].key@;
                    assert(before[k].1.key@ != rec.key@);
                }
                assert(list[n - 1] == rec);
            }
        }
        assert forall|r: int| 0 <= r < n implies has_key(now, (#[trigger] list[r]).key@) by {
            if r < n - 1 {
                assert(has_key(before, list[r].key@));
            }
        }
    }
}

/// Every result is a record as it was found: the first with its key in the first list or, where
/// the key is not in that list, the first in the second.
pub proof fn law_results_are_the_records_that_were_found(
    first: Seq<MemoryRecord>,
    second: Seq<MemoryRecord>,
    limit: nat,
    i: int,
)
    requires
        0 <= i < fused(first, second, limit).len(),
    ensures
        in_head(first, fused(first, second, limit)[i].key@) ==> exists|r: int|
            0 <= r < head_len(first) && (#[trigger] first[r]) == fused(first, second, limit)[i]
                && forall|q: int|
                0 <= q < r ==> (#[trigger] first[q]).key@ != fused(first, second, limit)[i].key@,
        !in_head(first, fused(first, second, limit)[i].key@) ==> exists|r: int|
            0 <= r < head_len(second) && (#[trigger] second[r]) == fused(first, second, limit)[i]
                && forall|q: int|
                0 <= q < r ==> (#[trigger] second[q]).key@ != fused(first, second, limit)[i].key@,
{
    broadcast use vstd::seq_lib::group_to_multiset_ensures;

    let empty = Seq::<(nat, MemoryRecord)>::empty();
    let half = with_list(empty, first, candidates(first));
    let all = scored(first, second);
    let best = by_score(all);
    let e = best[i];
    let key = e.1.key@;
    assert(candidates(first) == head_len(first) && candidates(second) == head_len(second));
    lemma_list_records(empty, first, candidates(first));
    lemma_list_records(half, second, candidates(second));
    law_ranking_is_by_falling_score(all);
    assert(best.contains(e));
    assert(all.to_multiset().count(e) > 0);
    assert(all.contains(e));
    let a = all.index_of(e);
    assert(all[a].1 == e.1);
    if has_record(half, e.1) {
        let k = choose|k: int| 0 <= k < half.len() && (#[trigger] half[k]).1 == e.1;
        assert(!has_record(empty, half[k].1));
        assert(is_first(first, candidates(first), e.1));
        let r = choose|r: int|
            0 <= r < candidates(first) && (#[trigger] first[r]) == e.1 && forall|q: int|
                0 <= q < r ==> (#[trigger] first[q]).key@ != e.1.key@;
        assert(first[r].key@ == key);
        assert(in_head(first, key));
    } else {
        assert(is_first(second, candidates(second), e.1));
        if in_head(first, key) {
            let r = choose|r: int| 0 <= r < head_len(first) && (#[trigger] first[r]).key@ == key;
            assert(has_key(half, first[r].key@));
            assert(false);
        }
    }
}

proof fn lemma_ranked_order(
    ranked: Seq<(nat, MemoryRecord)>,
    e: (nat, MemoryRecord),
    i: int,
    j: int,
)
    requires
        falling(ranked),
        0 <= i < j < ranked_with(ranked, e).len(),
    ensures
        ({
            let now = ranked_with(ranked, e);
            ||| exists|a: int, b: int|
                0 <= a < b < ranked.len() && now[i] == (#[trigger] ranked[a]) && now[j] == (
                #[trigger] ranked[b])
            ||| now[j] == e && exists|a: int|
                0 <= a < ranked.len() && now[i] == (#[trigger] ranked[a])
            ||| now[i] == e && now[j].0 < e.0
        }),
    decreases ranked.len(),
{
    let now = ranked_with(ranked, e);
    lemma_ranked_with(ranked, e);
    if ranked.len() == 0 || ranked.last().0 >= e.0 {
        assert(now[i] == ranked[i]);
        if j < ranked.len() {
            assert(now[j] == ranked[j]);
        }
    } else {
        let rest = ranked.drop_last();
        assert(falling(rest)) by {
            assert forall|a: int, b: int| 0 <= a < b < rest.len() implies (#[trigger] rest[a]).0
                >= (#[trigger] rest[b]).0 by {
                assert(rest[a] == ranked[a] && rest[b] == ranked[b]);
            }
        }
        lemma_ranked_with(rest, e);
        let inner = ranked_with(rest, e);
        if j < inner.len() {
            lemma_ranked_order(rest, e, i, j);
            assert(now[i] == inner[i] && now[j] == inner[j]);
            if exists|a: int, b: int|
                0 <= a < b < rest.len() && inner[i] == (#[trigger] rest[a]) && inner[j] == (
                #[trigger] rest[b]) {
                let (a, b) = choose|a: int, b: int|
                    0 <= a < b < rest.len() && inner[i] == (#[trigger] rest[a]) && inner[j] == (
                    #[trigger] rest[b]);
                assert(ranked[a] == rest[a] && ranked[b] == rest[b]);
            } else if now[j] == e && exists|a: int|
                0 <= a < rest.len() && inner[i] == (#[trigger] rest[a]) {
                let a = choose|a: int| 0 <= a < rest.len() && inner[i] == (#[trigger] rest[a]);
                assert(ranked[a] == rest[a]);
            }
        } else {
            broadcast use vstd::seq_lib::group_to_multiset_ensures;

            assert(now[j] == ranked.last());
            assert(now[i] == inner[i]);
            assert(inner.contains(inner[i]));
            assert(rest.push(e).to_multiset() =~= rest.to_multiset().insert(e));
            assert(rest.push(e).to_multiset().count(inner[i]) > 0);
            assert(rest.push(e).contains(inner[i]));
            let a = rest.push(e).index_of(inner[i]);
            if a < rest.len() {
                assert(ranked[a] == now[i]);
                assert(ranked[ranked.len() - 1] == now[j]);
            }
        }
    }
}

/// Entries with the same score stay in the order in which they came.
pub proof fn law_equal_scores_keep_their_order(acc: Seq<(nat, MemoryRecord)>, i: int, j: int)
    requires
        0 <= i < j < by_score(acc).len(),
        by_score(acc)[i].0 == by_score(acc)[j].0,
    ensures
        exists|a: int, b: int|
            0 <= a < b < acc.len() && by_score(acc)[i] == (#[trigger] acc[a]) && by_score(acc)[j]
                == (#[trigger] acc[b]),
    decreases acc.len(),
{
    broadcast use vstd::seq_lib::group_to_multiset_ensures;

    let now = by_score(acc);
    let rest = acc.drop_last();
    let ranked = by_score(rest);
    let e = acc.last();
    lemma_by_score_falls(rest);
    law_ranking_is_by_falling_score(rest);
    lemma_ranked_order(ranked, e, i, j);
    if exists|a: int, b: int|
        0 <= a < b < ranked.len() && now[i] == (#[trigger] ranked[a]) && now[j] == (
        #[trigger] ranked[b]) {
        let (a, b) = choose|a: int, b: int|
            0 <= a < b < ranked.len() && now[i] == (#[trigger] ranked[a]) && now[j] == (
            #[trigger] ranked[b]);
        law_equal_scores_keep_their_order(rest, a, b);
        let (c, d) = choose|c: int, d: int|
            0 <= c < d < rest.len() && ranked[a] == (#[trigger] rest[c]) && ranked[b] == (
            #[trigger] rest[d]);
        assert(acc[c] == rest[c] && acc[d] == rest[d]);
    } else {
        let a = choose|a: int| 0 <= a < ranked.len() && now[i] == (#[trigger] ranked[a]);
        assert(ranked.contains(ranked[a]));
        assert(rest.to_multiset().count(ranked[a]) > 0);
        assert(rest.contains(ranked[a]));
        let c = rest.index_of(ranked[a]);
        assert(acc[c] == now[i]);
        assert(acc[acc.len() - 1] == e);
    }
}

/// A record with its score.
struct Scored {
    score: u128,
    record: MemoryRecord,
}

spec fn scored_views(v: Seq<Scored>) -> Seq<(nat, MemoryRecord)> {
    Seq::new(v.len(), |i: int| (v[i].score as nat, v[i].record))
}

spec fn all_at_most(v: Seq<Scored>, b: int) -> bool {
    forall|i: int| 0 <= i < v.len() ==> (#[trigger] v[i]).score <= b
}

fn add_hit(acc: &mut Vec<Scored>, record: MemoryRecord, score: u128)
    requires
        all_at_most(old(acc)@, u128::MAX - score),
    ensures
        scored_views(final(acc)@) == with_hit(scored_views(old(acc)@), record, score as nat),
        forall|b: int| #[trigger]
            all_at_most(old(acc)@, b) && 0 <= b ==> all_at_most(final(acc)@, b + score),
{
    let ghost before = scored_views(acc@);
    let mut i: usize = 0;
    while i < acc.len()
        invariant
            i <= acc@.len(),
            acc@ == old(acc)@,
            before == scored_views(acc@),
            all_at_most(old(acc)@, u128::MAX - score),
            place_of(before, record.key@, 0) == place_of(before, record.key@, i as int),
        decreases acc@.len() - i,
    {
        if acc[i].record.key == record.key {
            let entry = acc.remove(i);
            let total: u128 = entry.score + score;
            acc.insert(i, Scored { score: total, record: entry.record });
            proof {
                assert(scored_views(acc@) =~= with_hit(before, record, score as nat));
            }
            return;
        }
        i += 1;
    }
    acc.push(Scored { score, record });
    assert(scored_views(acc@) =~= with_hit(before, record, score as nat));
}

fn add_list(acc: &mut Vec<Scored>, list: Vec<MemoryRecord>)
    requires
        all_at_most(old(acc)@, 20 * SCORE_UNIT),
    ensures
        scored_views(final(acc)@) == with_list(
            scored_views(old(acc)@),
            list@,
            candidates(list@),
        ),
        old(acc)@.len() == 0 ==> all_at_most(final(acc)@, 20 * SCORE_UNIT),
{
    let ghost all = list@;
    let ghost start = scored_views(acc@);
    let ghost base: int = if acc@.len() == 0 {
        0
    } else {
        20 * SCORE_UNIT
    };
    let mut rest = list;
    let mut rank: usize = 0;
    while rank < MAX_CANDIDATES && rest.len() > 0
        invariant
            rank <= MAX_CANDIDATES,
            rank <= all.len(),
            rest@ == all.skip(rank as int),
            0 <= base <= 20 * SCORE_UNIT,
            scored_views(acc@) == with_list(start, all, rank as nat),
            all_at_most(acc@, base + rank * SCORE_UNIT),
        decreases MAX_CANDIDATES - rank,
    {
        let record = rest.remove(0);
        let score: u128 = SCORE_UNIT / (RANK_OFFSET + rank as u128);
        proof {
            assert(record == all[rank as int]);
            assert(score == weight(rank as nat));
            assert(score <= SCORE_UNIT) by (nonlinear_arith)
                requires
                    score == SCORE_UNIT / ((RANK_OFFSET + rank as u128) as u128),
                    RANK_OFFSET + rank >= 1,
            ;
            assert(rest@ =~= all.skip(rank + 1));
            assert(rank * SCORE_UNIT <= 20 * SCORE_UNIT) by (nonlinear_arith)
                requires
                    rank <= 20,
            ;
            assert((rank + 1) * SCORE_UNIT == rank * SCORE_UNIT + SCORE_UNIT) by (nonlinear_arith);
        }
        add_hit(acc, record, score);
        rank += 1;
    }
    proof {
        assert(rank == candidates(all));
        assert(rank * SCORE_UNIT <= 20 * SCORE_UNIT) by (nonlinear_arith)
            requires
                rank <= 20,
        ;
    }
}

fn rank_entries(acc: Vec<Scored>) -> (r: Vec<Scored>)
    ensures
        scored_views(r@) == by_score(scored_views(acc@)),
{
    let ghost all = scored_views(acc@);
    let mut rest = acc;
    let mut r: Vec<Scored> = Vec::new();
    let ghost mut n: int = 0;
    assert(scored_views(r@) =~= by_score(all.take(0)));
    while rest.len() > 0
        invariant
            0 <= n <= all.len(),
            scored_views(rest@) == all.skip(n),
            scored_views(r@) == by_score(all.take(n)),
        decreases rest@.len(),
    {
        let ghost rest0 = rest@;
        let e = rest.remove(0);
        let ghost ev = (e.score as nat, e.record);
        let ghost sorted = scored_views(r@);
        proof {
            assert(scored_views(rest0)[0] == ev);
            assert(scored_views(rest0).len() == rest0.len());
            assert(all.skip(n).len() > 0);
            assert(all.skip(n)[0] == all[n]);
            assert forall|i: int| 0 <= i < rest@.len() implies scored_views(rest@)[i] == all.skip(
                n + 1,
            )[i] by {
                assert(rest@[i] == rest0[i + 1]);
                assert(scored_views(rest0)[i + 1] == all.skip(n)[i + 1]);
            }
            assert(scored_views(rest@) =~= all.skip(n + 1));
        }
        let mut p: usize = r.len();
        proof {
            assert(sorted.take(p as int) =~= sorted);
            assert(ranked_with(sorted, ev) =~= ranked_with(sorted.take(p as int), ev)
                + sorted.skip(p as int));
        }
        while p > 0 && r[p - 1].score < e.score
            invariant
                p <= r@.len(),
                sorted == scored_views(r@),
                ev == (e.score as nat, e.record),
                ranked_with(sorted, ev) == ranked_with(sorted.take(p as int), ev) + sorted.skip(
                    p as int,
                ),
            decreases p,
        {
            proof {
                let t = sorted.take(p as int);
                assert(t.last() == sorted[p - 1]);
                assert(t.drop_last() =~= sorted.take(p - 1));
                assert(ranked_with(t, ev) + sorted.skip(p as int) =~= ranked_with(
                    sorted.take(p - 1),
                    ev,
                ) + sorted.skip(p - 1));
            }
            p -= 1;
        }
        r.insert(p, e);
        proof {
            let t = sorted.take(p as int);
            assert(ranked_with(t, ev) == t.push(ev)) by {
                if p > 0 {
                    assert(t.last() == sorted[p - 1]);
                }
            }
            assert(scored_views(r@) =~= ranked_with(sorted, ev));
            assert(all.take(n + 1).drop_last() =~= all.take(n));
            assert(all.take(n + 1).last() == ev);
            n = n + 1;
        }
    }
    proof {
        assert(all.skip(n).len() == 0);
        assert(all.take(n) =~= all);
    }
    r
}

/// Fuses the results of two searches by reciprocal rank. Of the records with one key the first is
/// kept, and among equal scores those of the first list come first.
pub fn fuse_results(first: Vec<MemoryRecord>, second: Vec<MemoryRecord>, limit: u32) -> (r: Vec<
    MemoryRecord,
>)
    ensures
        r@ == fused(first@, second@, limit as nat),
{
    let ghost goal = fused(first@, second@, limit as nat);
    let ghost best = by_score(scored(first@, second@));
    let mut acc: Vec<Scored> = Vec::new();
    assert(scored_views(acc@) =~= Seq::<(nat, MemoryRecord)>::empty());
    add_list(&mut acc, first);
    add_list(&mut acc, second);
    let mut rest = rank_entries(acc);
    let mut r: Vec<MemoryRecord> = Vec::new();
    let ghost all = rest@;
    let mut n: u32 = 0;
    while n < limit && rest.len() > 0
        invariant
            n <= limit,
            n <= all.len(),
            r@.len() == n,
            rest@ == all.skip(n as int),
            best == scored_views(all),
            forall|i: int| 0 <= i < n ==> (#[trigger] r@[i]) == best[i].1,
        decreases limit - n,
    {
        let e = rest.remove(0);
        proof {
            assert(e == all[n as int]);
            assert(best[n as int] == (e.score as nat, e.record));
            assert(rest@ =~= all.skip(n + 1));
        }
        r.push(e.record);
        n += 1;
    }
    assert(r@ =~= goal);
    r
}

// ---------------------------------------------------------------------------
// Duplicate decisions
// ---------------------------------------------------------------------------

/// The version of the schema that keeps decisions unique.
pub const SCHEMA_VERSION: i64 = 2;

/// Whether duplicate decisions have to be removed before the schema is applied.
pub fn needs_deduplication(stored_version: i64) -> (r: bool)
    ensures
        r == (stored_version < SCHEMA_VERSION),
{
    stored_version < SCHEMA_VERSION
}

/// Whether two decisions are the same one of the same project.
pub open spec fn same_decision(a: DecisionRecord, b: DecisionRecord) -> bool {
    a.project@ == b.project@ && a.decision@ == b.decision@
}

/// Whether decision `j` is kept rather than decision `i`: it was confirmed later, or at the same
/// time and stands in front.
pub open spec fn supersedes(ds: Seq<DecisionRecord>, j: int, i: int) -> bool {
    &&& 0 <= j < ds.len()
    &&& same_decision(ds[j], ds[i])
    &&& ds[i].last_confirmed.is_before(ds[j].last_confirmed) || (ds[i].last_confirmed
        == ds[j].last_confirmed && j < i)
}

/// Whether a decision is a duplicate.
pub open spec fn is_duplicate(ds: Seq<DecisionRecord>, i: int) -> bool {
    exists|j: int| #[trigger] supersedes(ds, j, i)
}

/// The identifiers of the duplicates among the first `n` decisions.
pub open spec fn duplicate_ids(ds: Seq<DecisionRecord>, n: nat) -> Seq<Seq<char>>
    decreases n,
{
    if n == 0 {
        Seq::empty()
    } else if is_duplicate(ds, n - 1) {
        duplicate_ids(ds, (n - 1) as nat).push(ds[n - 1].id@)
    } else {
        duplicate_ids(ds, (n - 1) as nat)
    }
}

/// Of the same decisions, exactly one is kept: two that are kept are different.
pub proof fn law_kept_decisions_are_different(ds: Seq<DecisionRecord>, i: int, j: int)
    requires
        0 <= i < ds.len(),
        0 <= j < ds.len(),
        i != j,
        !is_duplicate(ds, i),
        !is_duplicate(ds, j),
    ensures
        !same_decision(ds[i], ds[j]),
{
    if same_decision(ds[i], ds[j]) {
        assert(supersedes(ds, j, i) || supersedes(ds, i, j));
    }
}

/// For every decision, the same decision is kept, confirmed no earlier.
pub proof fn law_every_decision_is_kept_once(ds: Seq<DecisionRecord>, i: int) -> (k: int)
    requires
        0 <= i < ds.len(),
    ensures
        0 <= k < ds.len(),
        same_decision(ds[k], ds[i]),
        !is_duplicate(ds, k),
        !ds[k].last_confirmed.is_before(ds[i].last_confirmed),
{
    lemma_keeper(ds, i, ds.len())
}

proof fn lemma_keeper(ds: Seq<DecisionRecord>, i: int, n: nat) -> (k: int)
    requires
        0 <= i < ds.len(),
        n <= ds.len(),
        forall|j: int| n <= j < ds.len() ==> !(#[trigger] supersedes(ds, j, i)),
    ensures
        0 <= k < ds.len(),
        same_decision(ds[k], ds[i]),
        !is_duplicate(ds, k),
        !ds[k].last_confirmed.is_before(ds[i].last_confirmed),
    decreases n,
{
    if n == 0 {
        i
    } else if supersedes(ds, n - 1, i) {
        let m = n - 1;
        assert forall|j: int| m <= j < ds.len() implies !(#[trigger] supersedes(ds, j, m)) by {
            if j > m && supersedes(ds, j, m) {
                assert(supersedes(ds, j, i));
            }
        }
        lemma_keeper(ds, m, m as nat)
    } else {
        lemma_keeper(ds, i, (n - 1) as nat)
    }
}

/// Finds the decisions to delete, so that each decision of a project is left once: as it was
/// confirmed last.
pub fn find_duplicates(decisions: &Vec<DecisionRecord>) -> (r: Vec<String>)
    ensures
        text::views(r@) == duplicate_ids(decisions@, decisions@.len()),
{
    let mut r: Vec<String> = Vec::new();
    let mut i: usize = 0;
    assert(text::views(r@) =~= Seq::<Seq<char>>::empty());
    while i < decisions.len()
        invariant
            i <= decisions@.len(),
            text::views(r@) == duplicate_ids(decisions@, i as nat),
        decreases decisions@.len() - i,
    {
        let d = &decisions[i];
        let mut j: usize = 0;
        let mut found = false;
        while j < decisions.len() && !found
            invariant
                i < decisions@.len(),
                j <= decisions@.len(),
                *d == decisions@[i as int],
                !found ==> forall|k: int| 0 <= k < j ==> !(#[trigger] supersedes(
                    decisions@,
                    k,
                    i as int,
                )),
                found ==> is_duplicate(decisions@, i as int),
            decreases decisions@.len() - j + (if found { 0int } else { 1int }),
        {
            let e = &decisions[j];
            if e.project == d.project && e.decision == d.decision && (d.last_confirmed.before(
                &e.last_confirmed,
            ) || (d.last_confirmed == e.last_confirmed && j < i)) {
                assert(supersedes(decisions@, j as int, i as int));
                found = true;
            } else {
                assert(!supersedes(decisions@, j as int, i as int));
                j += 1;
            }
        }
        if found {
            let ghost before = r@;
            r.push(d.id.clone());
            proof {
                text::lemma_views_push(before, r@.last());
            }
        }
        i += 1;
    }
    r
}

// ---------------------------------------------------------------------------
// Laws on times, confidence and duplicates
// ---------------------------------------------------------------------------

/// Times are ordered: of two different ones exactly one is earlier, and what is earlier than an
/// earlier time is earlier. A later second makes a later time.
pub proof fn law_times_are_ordered(a: Timestamp, b: Timestamp, c: Timestamp)
    ensures
        !a.is_before(a),
        a != b ==> a.is_before(b) || b.is_before(a),
        !(a.is_before(b) && b.is_before(a)),
        a.is_before(b) && b.is_before(c) ==> a.is_before(c),
        a.secs < b.secs ==> a.is_before(b),
        a.secs == b.secs && a.nanos < b.nanos ==> a.is_before(b),
{
}

/// A time is older than some seconds where it is earlier than now even so much later.
pub proof fn law_older_is_earlier_than_so_long_ago(
    t: Timestamp,
    later: Timestamp,
    now: Timestamp,
    secs: int,
)
    requires
        later.secs == t.secs + secs,
        later.nanos == t.nanos,
    ensures
        is_older(t, now, secs) <==> later.is_before(now),
{
}

/// A lock holds for half an hour, and records are kept for thirty days.
pub proof fn law_locks_and_records_have_their_times()
    ensures
        LOCK_TTL_SECS == 30 * 60,
        RETENTION_SECS == 30 * 24 * 60 * 60,
{
}

/// A decision starts with the full confidence, loses a tenth with each of the first nine edits,
/// and keeps the last tenth.
pub proof fn law_confidence_falls_from_ten_tenths_to_one(edits: nat)
    ensures
        edits <= 9 ==> confidence_after(edits) + edits == 10,
        edits >= 9 ==> confidence_after(edits) == 1,
{
}

/// The confidence is shown as a fraction with two decimals.
pub proof fn law_confidence_is_shown_with_two_decimals(d: DecisionRecord)
    ensures
        d.confidence == 10 ==> d.shown_confidence() == "1.00"@,
        d.confidence < 10 ==> d.shown_confidence() == "0."@ + text::decimal(d.confidence as nat)
            + "0"@,
{
    reveal_strlit("1.00");
    reveal_strlit("0.");
    reveal_strlit(".");
    reveal_strlit("0");
    if d.confidence == 10 {
        assert(text::decimal(1) =~= seq!['1']);
        assert(text::decimal(0) =~= seq!['0']);
        assert(d.shown_confidence() =~= "1.00"@);
    }
    if d.confidence < 10 {
        assert(text::decimal(0) =~= seq!['0']);
        assert(d.shown_confidence() =~= "0."@ + text::decimal(d.confidence as nat) + "0"@);
    }
}

/// An edit of a file counts against each decision that lists the file, and changes no other
/// decision.
pub proof fn law_an_edit_counts_where_the_file_is_listed(
    ds: Seq<DecisionRecord>,
    file_path: Seq<char>,
    i: int,
)
    requires
        0 <= i < ds.len(),
        ds[i].edit_count < usize::MAX,
    ensures
        after_edit(ds, file_path).len() == ds.len(),
        (exists|k: int|
            0 <= k < ds[i].governed_files@.len() && (#[trigger] ds[i].governed_files@[k])@
                == file_path) ==> after_edit(ds, file_path)[i].edit_count == ds[i].edit_count + 1
            && after_edit(ds, file_path)[i].id == ds[i].id,
        (forall|k: int|
            0 <= k < ds[i].governed_files@.len() ==> (#[trigger] ds[i].governed_files@[k])@
                != file_path) ==> after_edit(ds, file_path)[i] == ds[i],
{
    let fs = ds[i].governed_files@;
    if exists|k: int| 0 <= k < fs.len() && (#[trigger] fs[k])@ == file_path {
        let k = choose|k: int| 0 <= k < fs.len() && (#[trigger] fs[k])@ == file_path;
        assert(text::views(fs)[k] == file_path);
    }
    if governs(ds[i], file_path) {
        let k = choose|k: int| 0 <= k < text::views(fs).len() && text::views(fs)[k] == file_path;
        assert(fs[k]@ == file_path);
    }
}

/// The query for statistics sums up by agent and project, and filters by what is asked for.
pub proof fn law_the_query_filters_by_what_is_asked_for(since: bool, by_project: bool)
    ensures
        text::begins_with(
            stats_query_text(since, by_project),
            "SELECT agent_id, project, math::sum(token_saved) AS total_saved, math::sum(token_usage) AS total_usage FROM memory"@,
        ),
        text::finishes_with(
            stats_query_text(since, by_project),
            " GROUP BY agent_id, project"@,
        ),
        text::contains_text(stats_query_text(true, by_project), " WHERE created_at >= $time_limit"@),
        text::contains_text(stats_query_text(since, true), " project = $proj"@),
        stats_query_text(false, false)
            == "SELECT agent_id, project, math::sum(token_saved) AS total_saved, math::sum(token_usage) AS total_usage FROM memory"@
            + " GROUP BY agent_id, project"@,
{
    let head =
        "SELECT agent_id, project, math::sum(token_saved) AS total_saved, math::sum(token_usage) AS total_usage FROM memory"@;
    let tail = " GROUP BY agent_id, project"@;
    let all = stats_query_text(since, by_project);
    assert(all.subrange(0, head.len() as int) =~= head);
    assert(all.subrange(all.len() - tail.len(), all.len() as int) =~= tail);
    reveal_strlit("");
    assert(stats_query_text(false, false) =~= head + tail);
    let both = " WHERE created_at >= $time_limit AND project = $proj"@;
    let time = " WHERE created_at >= $time_limit"@;
    let proj = " WHERE project = $proj"@;
    let equal = " project = $proj"@;
    reveal_strlit(" WHERE created_at >= $time_limit AND project = $proj");
    reveal_strlit(" WHERE created_at >= $time_limit");
    reveal_strlit(" WHERE project = $proj");
    reveal_strlit(" project = $proj");
    assert(both.subrange(0, time.len() as int) =~= time);
    assert(text::occurs_at(both, time, 0));
    assert(both.subrange(both.len() - equal.len(), both.len() as int) =~= equal);
    assert(text::occurs_at(both, equal, both.len() - equal.len()));
    assert(proj.subrange(proj.len() - equal.len(), proj.len() as int) =~= equal);
    assert(text::occurs_at(proj, equal, proj.len() - equal.len()));
    text::lemma_contains_within(head, both, tail, time);
    text::lemma_contains_within(head, both, tail, equal);
    text::lemma_contains_between(head, time, tail);
    text::lemma_contains_within(head, proj, tail, equal);
}

proof fn lemma_duplicate_ids(ds: Seq<DecisionRecord>, n: nat, id: Seq<char>)
    requires
        n <= ds.len(),
    ensures
        duplicate_ids(ds, n).contains(id) <==> exists|i: int|
            0 <= i < n && (#[trigger] ds[i]).id@ == id && is_duplicate(ds, i),
    decreases n,
{
    if n > 0 {
        let m = (n - 1) as nat;
        lemma_duplicate_ids(ds, m, id);
        let before = duplicate_ids(ds, m);
        let now = duplicate_ids(ds, n);
        if now.contains(id) {
            let k = choose|k: int| 0 <= k < now.len() && now[k] == id;
            if k < before.len() {
                assert(before[k] == id);
            } else {
                assert(ds[n - 1].id@ == id && is_duplicate(ds, n - 1));
            }
        }
        if before.contains(id) {
            let k = choose|k: int| 0 <= k < before.len() && before[k] == id;
            assert(now[k] == id);
        }
        if ds[n - 1].id@ == id && is_duplicate(ds, n - 1) {
            assert(now[before.len() as int] == id);
        }
    }
}

/// A decision is deleted exactly where the same text is recorded for the same project with a later
/// confirmation, or with the same one further in front.
pub proof fn law_exactly_the_superseded_decisions_are_deleted(ds: Seq<DecisionRecord>, i: int)
    requires
        0 <= i < ds.len(),
        forall|a: int, b: int|
            0 <= a < ds.len() && 0 <= b < ds.len() && a != b ==> (#[trigger] ds[a]).id@ != (
            #[trigger] ds[b]).id@,
    ensures
        duplicate_ids(ds, ds.len()).contains(ds[i].id@) <==> exists|j: int|
            0 <= j < ds.len() && (#[trigger] ds[j]).project@ == ds[i].project@ && ds[j].decision@
                == ds[i].decision@ && (ds[i].last_confirmed.is_before(ds[j].last_confirmed) || (
            ds[i].last_confirmed == ds[j].last_confirmed && j < i)),
{
    lemma_duplicate_ids(ds, ds.len(), ds[i].id@);
    if is_duplicate(ds, i) {
        let j = choose|j: int| #[trigger] supersedes(ds, j, i);
        assert(ds[j].project@ == ds[i].project@);
    }
    if exists|j: int|
        0 <= j < ds.len() && (#[trigger] ds[j]).project@ == ds[i].project@ && ds[j].decision@
            == ds[i].decision@ && (ds[i].last_confirmed.is_before(ds[j].last_confirmed) || (
        ds[i].last_confirmed == ds[j].last_confirmed && j < i)) {
        let j = choose|j: int|
            0 <= j < ds.len() && (#[trigger] ds[j]).project@ == ds[i].project@ && ds[j].decision@
                == ds[i].decision@ && (ds[i].last_confirmed.is_before(ds[j].last_confirmed) || (
            ds[i].last_confirmed == ds[j].last_confirmed && j < i));
        assert(supersedes(ds, j, i));
    }
}

/// Decisions are unique from the second version of the schema on.
pub proof fn law_the_schema_has_its_version()
    ensures
        SCHEMA_VERSION == 2,
{
}

/// A decision that is confirmed has the full confidence, no edits, and the time of the
/// confirmation, and stays what it was otherwise.
pub proof fn law_confirming_restores_the_confidence(
    ds: Seq<DecisionRecord>,
    id: Seq<char>,
    project: Seq<char>,
    now: Timestamp,
    i: int,
)
    requires
        0 <= i < ds.len(),
        ds[i].id@ == id,
        ds[i].project@ == project,
    ensures
        after_confirmation(ds, id, project, now)[i].confidence == 10,
        after_confirmation(ds, id, project, now)[i].edit_count == 0,
        after_confirmation(ds, id, project, now)[i].last_confirmed == now,
        after_confirmation(ds, id, project, now)[i].id == ds[i].id,
        after_confirmation(ds, id, project, now)[i].decision == ds[i].decision,
        after_confirmation(ds, id, project, now)[i].context == ds[i].context,
        after_confirmation(ds, id, project, now)[i].governed_files == ds[i].governed_files,
        after_confirmation(ds, id, project, now)[i].created_at == ds[i].created_at,
{
}

} // verus!
