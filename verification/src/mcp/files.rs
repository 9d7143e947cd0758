//! Reading, patching and locking files: what is decided at each step of a request.

use crate::cache;
use crate::cache::store;
use crate::cache::CacheState;
use crate::cache::SearchCache;
use crate::config;
use crate::config::AccessError;
use crate::db::FileLock;
use crate::mcp;
use crate::mcp::Args;
use crate::mcp::Reply;
use crate::text;
use crate::tools::apply::Hunk;
use crate::tools::read::ReadOutput;
use crate::tools::standards;
use crate::tools::standards::ProjectStandards;
use crate::utils;
use crate::utils::DiffRatio;
use vstd::prelude::*;

verus! {

/// The resolved path where there is one, else the path as given.
pub fn resolved_or_given(path: &str, canonical: &Result<String, String>) -> (r: String)
    ensures
        r@ == (match *canonical {
            Ok(c) => c@,
            Err(_) => path@,
        }),
{
    match canonical {
        Ok(c) => c.clone(),
        Err(_) => text::copy(path),
    }
}

/// The reply to a denied access.
pub fn reply_denied(error: AccessError) -> (r: Reply)
    ensures
        r.fails(error.message@),
{
    mcp::error_content(error.message)
}

/// The path of a call that is to be watched: its project, or else its file.
pub open spec fn watched_path(args: Args) -> Option<Seq<char>> {
    if args.text("project_path"@) is Some {
        args.text("project_path"@)
    } else {
        args.text("file_path"@)
    }
}

/// Finds the path of a call that is to be watched.
pub fn path_to_watch(args: &Args) -> (r: Option<String>)
    ensures
        r is Some <==> watched_path(*args) is Some,
        r matches Some(p) ==> watched_path(*args) == Some(p@),
{
    match args.get_text("project_path") {
        Some(p) => Some(p),
        None => args.get_text("file_path"),
    }
}

// ---------------------------------------------------------------------------
// Reading
// ---------------------------------------------------------------------------

/// A request to read a file.
pub struct ReadRequest {
    pub file_path: String,
    pub mode: String,
    pub agent_id: String,
}

/// Reads a request to read a file.
pub fn parse_surgical_read(args: &Args) -> (r: Result<ReadRequest, Reply>)
    ensures
        match mcp::first_missing(*args, seq!["file_path"@, "mode"@, "agent_id"@], 0) {
            Some(n) => r matches Err(e) && e.fails(mcp::missing_text(n)),
            None => r matches Ok(q) && args.text("file_path"@) == Some(q.file_path@) && args.text(
                "mode"@,
            ) == Some(q.mode@) && args.text("agent_id"@) == Some(q.agent_id@),
        },
{
    match mcp::required_triple(args, "file_path", "mode", "agent_id") {
        Err(e) => Err(mcp::error_content(e)),
        Ok((file_path, mode, agent_id)) => Ok(ReadRequest { file_path, mode, agent_id }),
    }
}

/// Answers a read from the cache, if it can be.
pub fn cached_read(search_cache: &mut SearchCache, canonical_path: &str, mode: &str) -> (r: Option<
    Reply,
>)
    requires
        old(search_cache).wf(),
    ensures
        final(search_cache).wf(),
        r matches Some(reply) ==> ({
            let s = old(search_cache)@;
            let k = cache::read_key(canonical_path@, mode@);
            s.content.dom().contains(k) && reply.tells(s.content[k]) && final(search_cache)@ == s
        }),
        r is None ==> final(search_cache)@ == (CacheState {
            content: old(search_cache)@.content.remove(cache::read_key(canonical_path@, mode@)),
            ..old(search_cache)@
        }),
        store::text_kept(final(search_cache).content) == store::text_kept(
            old(search_cache).content,
        ),
        store::pair_kept(final(search_cache).last_sent) == store::pair_kept(
            old(search_cache).last_sent,
        ),
{
    let key = SearchCache::key_read(canonical_path, mode);
    match search_cache.cached(key.as_str()) {
        Some(content) => Some(mcp::text_content(content)),
        None => None,
    }
}

/// The tokens that a read saved, and those of the whole file. A token is taken for four bytes.
#[derive(Clone, Copy, PartialEq, Eq, Structural, Debug)]
pub struct Savings {
    pub tokens_saved: usize,
    pub total_tokens: usize,
}

/// What is stored of the tokens that a read saved.
pub struct SavingsNote {
    pub key: String,
    pub content: String,
    pub project: String,
    pub tags: Vec<String>,
}

/// Describes the tokens that a read saved. `nanos` is the current time, and `project` the root of
/// the file's project where it has one.
pub fn savings_note(
    request: &ReadRequest,
    canonical_path: &str,
    savings: Savings,
    nanos: i64,
    project: Option<String>,
) -> (r: SavingsNote)
    ensures
        r.key@ == "token_savings_"@ + request.agent_id@ + "_"@ + canonical_path@ + "_"@
            + text::signed_decimal(nanos as int),
        r.content@ == "Saved "@ + text::decimal(savings.tokens_saved as nat)
            + " tokens by pruning "@ + request.file_path@,
        r.project@ == (match project {
            Some(p) => p@,
            None => "klaar_internal"@,
        }),
        text::views(r.tags@) == seq!["roi"@, "token_savings"@],
{
    let mut key = text::copy("token_savings_");
    key.append(request.agent_id.as_str());
    key.append("_");
    key.append(canonical_path);
    key.append("_");
    key.append(text::signed_decimal_text(nanos).as_str());
    let mut content = text::copy("Saved ");
    content.append(text::decimal_text(savings.tokens_saved as u128).as_str());
    content.append(" tokens by pruning ");
    content.append(request.file_path.as_str());
    let mut tags: Vec<String> = Vec::new();
    tags.push(text::copy("roi"));
    tags.push(text::copy("token_savings"));
    assert(text::views(tags@) =~= seq!["roi"@, "token_savings"@]);
    SavingsNote {
        key,
        content,
        project: match project {
            Some(p) => p,
            None => text::copy("klaar_internal"),
        },
        tags,
    }
}

/// How long a text may be that is compared with what was sent before, in bytes.
pub const DIFF_CAP_BYTES: usize = 500_000;

/// What a read is answered with.
pub enum ReadBody {
    /// The reply as it is.
    Whole(Reply),
    /// A diff since the last read.
    Diff { ratio: DiffRatio, diff: String },
}

/// Whether a diff is sent in place of the content: neither text is too long, and the change is
/// minor.
pub open spec fn diff_is_sent(content: Seq<char>, baseline: Option<Seq<char>>) -> bool {
    baseline matches Some(before) && text::byte_len(content) <= DIFF_CAP_BYTES && text::byte_len(
        before,
    ) <= DIFF_CAP_BYTES && ({
        let d = utils::line_diff(before, content);
        utils::is_minor(utils::changed_count(d), d.len())
    })
}

/// What a content is answered with, given what was sent before.
pub open spec fn is_read_body(
    body: ReadBody,
    content: Seq<char>,
    baseline: Option<Seq<char>>,
) -> bool {
    if diff_is_sent(content, baseline) {
        let d = utils::line_diff(baseline->0, content);
        body matches ReadBody::Diff { ratio, diff } && ratio.changes == utils::changed_count(d)
            && ratio.total == d.len() && diff@ == utils::diff_text(d)
    } else {
        body matches ReadBody::Whole(reply) && reply.tells(content)
    }
}

/// Chooses between the content and a diff. `baseline` is what was sent before.
pub fn choose_body(content: &String, baseline: Option<String>) -> (r: ReadBody)
    ensures
        is_read_body(r, content@, config::optional(baseline)),
        baseline matches Some(b) && b@ == content@ ==> r is Whole,
{
    if let Some(before) = baseline {
        if text::byte_count(content.as_str()) <= DIFF_CAP_BYTES && text::byte_count(
            before.as_str(),
        ) <= DIFF_CAP_BYTES {
            let stats = utils::compute_diff_stats(before.as_str(), content.as_str());
            if stats.ratio.minor() {
                return ReadBody::Diff { ratio: stats.ratio, diff: stats.diff };
            }
        }
    }
    ReadBody::Whole(mcp::text_content(content.clone()))
}

/// The reply with a diff. `ratio` is the share of changed lines as it is shown.
pub fn reply_diff(ratio: &str, diff: &str) -> (r: Reply)
    ensures
        r.tells(
            "DIFF SINCE LAST READ (Ratio: "@ + ratio@ + ")\n"@ + diff@
                + "\n[Content updated in cache]"@,
        ),
{
    let mut t = text::copy("DIFF SINCE LAST READ (Ratio: ");
    t.append(ratio);
    t.append(")\n");
    t.append(diff);
    t.append("\n[Content updated in cache]");
    mcp::text_content(t)
}

/// The answer to a read, and the tokens that it saved.
pub struct ReadAnswer {
    pub body: ReadBody,
    pub savings: Option<Savings>,
}

/// The content of a read: with the standards of the project where it is a skeleton.
pub open spec fn read_content(
    request: ReadRequest,
    output: Seq<char>,
    s: Option<ProjectStandards>,
) -> Seq<char> {
    if request.mode@ == "skeleton"@ {
        standards::with_standards(s, request.file_path@, output)
    } else {
        output
    }
}

/// The tokens that a read saved, if it saved any bytes.
pub open spec fn savings_of(saved_bytes: usize, raw_bytes: usize) -> Option<Savings> {
    if saved_bytes > 0 {
        Some(
            Savings {
                tokens_saved: (saved_bytes / 4) as usize,
                total_tokens: (raw_bytes / 4) as usize,
            },
        )
    } else {
        None
    }
}

/// Whether a read was answered with a content from state `s` to state `t`. The content is cached
/// and is the new baseline of the agent, and the body goes by the baseline that the cache still
/// had, if any.
pub open spec fn read_is_answered(
    s: CacheState,
    t: CacheState,
    request: ReadRequest,
    path: Seq<char>,
    content: Seq<char>,
    body: ReadBody,
) -> bool {
    let kept = CacheState {
        content: s.content.insert(cache::read_key(path, request.mode@), content),
        ..s
    };
    &&& cache::compacted(cache::with_sent(kept, request.agent_id@, path, content), t)
    &&& exists|baseline: Option<Seq<char>>| #[trigger]
        is_read_body(body, content, baseline) && (baseline matches Some(b) ==> (
        s.last_sent.dom().contains((request.agent_id@, path)) && s.last_sent[(
            request.agent_id@,
            path,
        )] == b))
}

/// What the cache gives for a read, and what it compares the next read with, is the content that
/// was answered last.
pub proof fn law_the_cache_follows_the_answers(
    s: CacheState,
    t: CacheState,
    request: ReadRequest,
    path: Seq<char>,
    content: Seq<char>,
    body: ReadBody,
)
    requires
        read_is_answered(s, t, request, path, content, body),
    ensures
        t.content.dom().contains(cache::read_key(path, request.mode@)) ==> t.content[cache::read_key(
            path,
            request.mode@,
        )] == content,
        t.last_sent.dom().contains((request.agent_id@, path)) ==> t.last_sent[(
            request.agent_id@,
            path,
        )] == content,
        !cache::is_registered(s.search_keys, cache::read_key(path, request.mode@))
            ==> t.content.dom().contains(cache::read_key(path, request.mode@)),
{
    let k = cache::read_key(path, request.mode@);
    let a = (request.agent_id@, path);
    let kept = CacheState { content: s.content.insert(k, content), ..s };
    let goal = cache::with_sent(kept, request.agent_id@, path, content);
    assert(goal.content.dom().contains(k) && goal.content[k] == content);
    assert(goal.last_sent.dom().contains(a) && goal.last_sent[a] == content);
}

/// Makes the content of a read.
pub fn shown_content(
    request: &ReadRequest,
    output: String,
    project_standards: Option<&ProjectStandards>,
) -> (r: String)
    ensures
        r@ == read_content(
            *request,
            output@,
            match project_standards {
                Some(p) => Some(*p),
                None => None,
            },
        ),
{
    let mut content = output;
    if text::str_eq(request.mode.as_str(), "skeleton") {
        standards::inject_standards(&mut content, request.file_path.as_str(), project_standards);
    }
    content
}

/// Answers a read with its content or, where `baseline` was sent before and the change is minor,
/// with a diff.
pub fn answer_content(
    content: &String,
    saved_bytes: usize,
    raw_bytes: usize,
    baseline: Option<String>,
) -> (r: ReadAnswer)
    ensures
        r.savings == savings_of(saved_bytes, raw_bytes),
        is_read_body(r.body, content@, config::optional(baseline)),
        baseline matches Some(b) && b@ == content@ ==> r.body is Whole,
{
    let savings = if saved_bytes > 0 {
        Some(Savings { tokens_saved: saved_bytes / 4, total_tokens: raw_bytes / 4 })
    } else {
        None
    };
    ReadAnswer { body: choose_body(content, baseline), savings }
}

/// Answers a read that was not in the cache. The content is kept in the cache and as the baseline
/// of the agent.
pub fn answer_read(
    search_cache: &mut SearchCache,
    request: &ReadRequest,
    canonical_path: &str,
    outcome: Result<ReadOutput, String>,
    project_standards: Option<&ProjectStandards>,
) -> (r: ReadAnswer)
    requires
        old(search_cache).wf(),
    ensures
        final(search_cache).wf(),
        outcome matches Err(e) ==> r.savings is None && final(search_cache)@ == old(search_cache)@ && (r.body matches ReadBody::Whole(reply) && reply.fails(
            "surgical_read failed: "@ + e@,
        )),
        outcome matches Ok(o) ==> r.savings == savings_of(o.saved_bytes, o.raw_bytes) && read_is_answered(
            old(search_cache)@,
            final(search_cache)@,
            *request,
            canonical_path@,
            read_content(
                *request,
                o.output@,
                match project_standards {
                    Some(p) => Some(*p),
                    None => None,
                },
            ),
            r.body,
        ),
        outcome is Err ==> store::text_kept(final(search_cache).content) == store::text_kept(
            old(search_cache).content,
        ) && store::pair_kept(final(search_cache).last_sent) == store::pair_kept(
            old(search_cache).last_sent,
        ),
        outcome matches Ok(o) ==> ({
            let content = read_content(
                *request,
                o.output@,
                match project_standards {
                    Some(p) => Some(*p),
                    None => None,
                },
            );
            &&& store::text_kept(final(search_cache).content) == store::text_kept(
                old(search_cache).content,
            ).insert(cache::read_key(canonical_path@, request.mode@), content)
            &&& store::pair_kept(final(search_cache).last_sent) == store::pair_kept(
                old(search_cache).last_sent,
            ).insert((request.agent_id@, canonical_path@), content)
        }),
{
    match outcome {
        Err(e) => ReadAnswer {
            body: ReadBody::Whole(mcp::error_because("surgical_read failed: ", e.as_str())),
            savings: None,
        },
        Ok(o) => {
            let ghost s = search_cache@;
            let content = shown_content(request, o.output, project_standards);
            search_cache.insert_read(canonical_path, request.mode.as_str(), content.as_str());
            let ghost kept = search_cache@;
            let mut baseline: Option<String> = None;
            if text::byte_count(content.as_str()) <= DIFF_CAP_BYTES {
                baseline = search_cache.last_sent(request.agent_id.as_str(), canonical_path);
            }
            let ghost looked = search_cache@;
            let ghost b = config::optional(baseline);
            let answer = answer_content(&content, o.saved_bytes, o.raw_bytes, baseline);
            let ghost c = content@;
            search_cache.insert_last_sent(
                request.agent_id.clone(),
                text::copy(canonical_path),
                content,
            );
            proof {
                let a = request.agent_id@;
                let f = canonical_path@;
                assert(cache::with_sent(looked, a, f, c).last_sent =~= cache::with_sent(
                    kept,
                    a,
                    f,
                    c,
                ).last_sent);
                assert(cache::with_sent(looked, a, f, c) == cache::with_sent(kept, a, f, c));
                assert(is_read_body(answer.body, c, b));
            }
            answer
        },
    }
}

// ---------------------------------------------------------------------------
// Patching
// ---------------------------------------------------------------------------

/// The hunks of a request: left out, not readable, or given.
pub enum HunksArg {
    Missing,
    Invalid(String),
    Given(Vec<Hunk>),
}

/// A request to patch a file.
pub struct ApplyRequest {
    pub file_path: String,
    pub hunks: Vec<Hunk>,
    pub agent_id: String,
}

/// Why a request to patch a file is refused, if it is.
pub open spec fn apply_refusal(args: Args, hunks: HunksArg) -> Option<Seq<char>> {
    if args.text("file_path"@) is None {
        Some(mcp::missing_text("file_path"@))
    } else {
        match hunks {
            HunksArg::Missing => Some(mcp::missing_text("hunks"@)),
            HunksArg::Invalid(e) => Some("Invalid hunks format: "@ + e@),
            HunksArg::Given(v) => if v@.len() == 0 {
                Some("hunks must be non-empty"@)
            } else if args.text("agent_id"@) is None {
                Some(mcp::missing_text("agent_id"@))
            } else {
                None
            },
        }
    }
}

/// Reads a request to patch a file.
pub fn parse_fast_apply(args: &Args, hunks: HunksArg) -> (r: Result<ApplyRequest, Reply>)
    ensures
        match apply_refusal(*args, hunks) {
            Some(t) => r matches Err(e) && e.fails(t),
            None => r matches Ok(q) && args.text("file_path"@) == Some(q.file_path@)
                && hunks == HunksArg::Given(q.hunks) && args.text("agent_id"@) == Some(
                q.agent_id@,
            ),
        },
{
    let file_path = match args.required("file_path") {
        Err(e) => {
            return Err(mcp::error_content(e));
        },
        Ok(p) => p,
    };
    match hunks {
        HunksArg::Missing => Err(
            mcp::error_because("Missing required field: ", "hunks"),
        ),
        HunksArg::Invalid(e) => Err(mcp::error_because("Invalid hunks format: ", e.as_str())),
        HunksArg::Given(hunks) => {
            if hunks.len() == 0 {
                return Err(mcp::error_content(text::copy("hunks must be non-empty")));
            }
            match args.required("agent_id") {
                Err(e) => Err(mcp::error_content(e)),
                Ok(agent_id) => Ok(ApplyRequest { file_path, hunks, agent_id }),
            }
        },
    }
}

/// What follows in a request to patch a file.
pub enum ApplyStep {
    /// The lock is to be claimed.
    Claim,
    /// The hunks are to be applied. `auto_claimed` tells that the lock was claimed for it.
    Apply { auto_claimed: bool },
    /// The request is answered.
    Finish(ApplyEnd),
}

/// The end of a request to patch a file.
pub struct ApplyEnd {
    pub reply: Reply,
    /// The lock is to be released.
    pub release: bool,
    /// What is cached of the file is to be evicted.
    pub evict: bool,
    /// The edit counts against the decisions on the file.
    pub count_edit: bool,
}

/// The message for a file that another agent has locked.
pub open spec fn locked_text(file_path: Seq<char>, lock: FileLock) -> Seq<char> {
    "ResourceLocked: File '"@ + file_path + "' is actively locked by agent '"@ + lock.agent_id@
        + "' on virtual branch '"@ + lock.virtual_branch@ + "'."@
}

fn reply_locked(file_path: &str, lock: &FileLock) -> (r: Reply)
    ensures
        r.fails(locked_text(file_path@, *lock)),
{
    let mut t = text::copy("ResourceLocked: File '");
    t.append(file_path);
    t.append("' is actively locked by agent '");
    t.append(lock.agent_id.as_str());
    t.append("' on virtual branch '");
    t.append(lock.virtual_branch.as_str());
    t.append("'.");
    mcp::error_content(t)
}

fn refuse(reply: Reply) -> (r: ApplyStep)
    ensures
        r matches ApplyStep::Finish(end) && end.reply == reply && !end.release && !end.evict
            && !end.count_edit,
{
    ApplyStep::Finish(ApplyEnd { reply, release: false, evict: false, count_edit: false })
}

/// The step after the lock was looked up.
pub fn after_lock_check(
    request: &ApplyRequest,
    lock: Result<Option<FileLock>, String>,
) -> (r: ApplyStep)
    ensures
        match lock {
            Ok(Some(l)) => if l.agent_id@ == request.agent_id@ {
                r == (ApplyStep::Apply { auto_claimed: false })
            } else {
                r matches ApplyStep::Finish(end) && end.reply.fails(
                    locked_text(request.file_path@, l),
                ) && !end.release && !end.evict && !end.count_edit
            },
            Ok(None) => r is Claim,
            Err(e) => r matches ApplyStep::Finish(end) && end.reply.fails(
                "Failed to verify locks: "@ + e@,
            ) && !end.release && !end.evict && !end.count_edit,
        },
{
    match lock {
        Ok(Some(l)) => {
            if text::str_eq(l.agent_id.as_str(), request.agent_id.as_str()) {
                ApplyStep::Apply { auto_claimed: false }
            } else {
                refuse(reply_locked(request.file_path.as_str(), &l))
            }
        },
        Ok(None) => ApplyStep::Claim,
        Err(e) => refuse(mcp::error_because("Failed to verify locks: ", e.as_str())),
    }
}

/// The step after the lock was claimed.
pub fn after_claim(request: &ApplyRequest, claimed: Result<(), String>) -> (r: ApplyStep)
    ensures
        match claimed {
            Ok(_) => r == (ApplyStep::Apply { auto_claimed: true }),
            Err(e) => r matches ApplyStep::Finish(end) && end.reply.fails(
                "ResourceLocked: Failed to acquire lock for file '"@ + request.file_path@
                    + "'. Another agent may have acquired it: "@ + e@,
            ) && !end.release && !end.evict && !end.count_edit,
        },
{
    match claimed {
        Ok(_) => ApplyStep::Apply { auto_claimed: true },
        Err(e) => {
            let mut t = text::copy("ResourceLocked: Failed to acquire lock for file '");
            t.append(request.file_path.as_str());
            t.append("'. Another agent may have acquired it: ");
            t.append(e.as_str());
            refuse(mcp::error_content(t))
        },
    }
}

/// What came of applying hunks.
pub enum ApplyOutcome {
    /// The work was not finished.
    Crashed(String),
    /// The hunks were refused, or the file could not be read or written.
    Refused(String),
    /// The file was written.
    Applied { lines_changed: usize, file_path: String },
}

/// The reply when hunks were applied.
pub open spec fn applied_text(
    lines_changed: nat,
    file_path: Seq<char>,
    agent_id: Seq<char>,
    auto_claimed: bool,
) -> Seq<char> {
    let base = "Applied "@ + text::decimal(lines_changed) + " line replacement(s) to "@ + file_path;
    if auto_claimed {
        base + ". NOTE: A write lock was automatically acquired for this file under agent '"@
            + agent_id
            + "' and remains active. Remember to call unlock_file when you are finished modifying this file."@
    } else {
        base
    }
}

/// The end of a request after the hunks were applied, or not. A lock that was claimed for a
/// request that failed is released; one that was held before stays.
pub fn after_apply(request: &ApplyRequest, auto_claimed: bool, outcome: ApplyOutcome) -> (r: ApplyEnd)
    ensures
        match outcome {
            ApplyOutcome::Crashed(e) => r.reply.fails("fast_apply thread join failed: "@ + e@)
                && r.release == auto_claimed && !r.evict && !r.count_edit,
            ApplyOutcome::Refused(e) => r.reply.fails("fast_apply failed: "@ + e@) && r.release
                == auto_claimed && !r.evict && !r.count_edit,
            ApplyOutcome::Applied { lines_changed, file_path } => r.reply.tells(
                applied_text(
                    lines_changed as nat,
                    file_path@,
                    request.agent_id@,
                    auto_claimed,
                ),
            ) && !r.release && r.evict && r.count_edit == (lines_changed > 0),
        },
{
    match outcome {
        ApplyOutcome::Crashed(e) => ApplyEnd {
            reply: mcp::error_because("fast_apply thread join failed: ", e.as_str()),
            release: auto_claimed,
            evict: false,
            count_edit: false,
        },
        ApplyOutcome::Refused(e) => ApplyEnd {
            reply: mcp::error_because("fast_apply failed: ", e.as_str()),
            release: auto_claimed,
            evict: false,
            count_edit: false,
        },
        ApplyOutcome::Applied { lines_changed, file_path } => {
            let mut t = text::copy("Applied ");
            t.append(text::decimal_text(lines_changed as u128).as_str());
            t.append(" line replacement(s) to ");
            t.append(file_path.as_str());
            if auto_claimed {
                t.append(". NOTE: A write lock was automatically acquired for this file under agent '");
                t.append(request.agent_id.as_str());
                t.append(
                    "' and remains active. Remember to call unlock_file when you are finished modifying this file.",
                );
            }
            ApplyEnd {
                reply: mcp::text_content(t),
                release: false,
                evict: true,
                count_edit: lines_changed > 0,
            }
        },
    }
}

// ---------------------------------------------------------------------------
// Locking
// ---------------------------------------------------------------------------

/// A request to lock or unlock a file.
pub struct LockRequest {
    pub file_path: String,
    pub agent_id: String,
}

/// Reads a request to lock or unlock a file.
pub fn parse_lock(args: &Args) -> (r: Result<LockRequest, Reply>)
    ensures
        match mcp::first_missing(*args, seq!["file_path"@, "agent_id"@], 0) {
            Some(n) => r matches Err(e) && e.fails(mcp::missing_text(n)),
            None => r matches Ok(q) && args.text("file_path"@) == Some(q.file_path@) && args.text(
                "agent_id"@,
            ) == Some(q.agent_id@),
        },
{
    match mcp::required_pair(args, "file_path", "agent_id") {
        Err(e) => Err(mcp::error_content(e)),
        Ok((file_path, agent_id)) => Ok(LockRequest { file_path, agent_id }),
    }
}

/// The reply to a request to lock a file after the lock was looked up, or nothing where the lock
/// is to be claimed.
pub fn lock_decision(
    request: &LockRequest,
    lock: Result<Option<FileLock>, String>,
) -> (r: Option<Reply>)
    ensures
        match lock {
            Ok(Some(l)) => if l.agent_id@ == request.agent_id@ {
                r matches Some(reply) && reply.tells(
                    "Lock already held by you for file '"@ + request.file_path@ + "'"@,
                )
            } else {
                r matches Some(reply) && reply.fails(locked_text(request.file_path@, l))
            },
            Ok(None) => r is None,
            Err(e) => r matches Some(reply) && reply.fails("Failed to verify locks: "@ + e@),
        },
{
    match lock {
        Ok(Some(l)) => {
            if text::str_eq(l.agent_id.as_str(), request.agent_id.as_str()) {
                let mut t = text::copy("Lock already held by you for file '");
                t.append(request.file_path.as_str());
                t.append("'");
                Some(mcp::text_content(t))
            } else {
                Some(reply_locked(request.file_path.as_str(), &l))
            }
        },
        Ok(None) => None,
        Err(e) => Some(mcp::error_because("Failed to verify locks: ", e.as_str())),
    }
}

/// The reply after a lock was claimed.
pub fn reply_lock(request: &LockRequest, claimed: Result<(), String>) -> (r: Reply)
    ensures
        match claimed {
            Ok(_) => r.tells("Successfully locked file '"@ + request.file_path@ + "'"@),
            Err(e) => r.fails("Failed to acquire lock: "@ + e@),
        },
{
    match claimed {
        Ok(_) => {
            let mut t = text::copy("Successfully locked file '");
            t.append(request.file_path.as_str());
            t.append("'");
            mcp::text_content(t)
        },
        Err(e) => mcp::error_because("Failed to acquire lock: ", e.as_str()),
    }
}

/// The reply after a lock was released.
pub fn reply_unlock(request: &LockRequest, released: Result<(), String>) -> (r: Reply)
    ensures
        match released {
            Ok(_) => r.tells("Successfully unlocked file '"@ + request.file_path@ + "'"@),
            Err(e) => r.fails("Failed to unlock file: "@ + e@),
        },
{
    match released {
        Ok(_) => {
            let mut t = text::copy("Successfully unlocked file '");
            t.append(request.file_path.as_str());
            t.append("'");
            mcp::text_content(t)
        },
        Err(e) => mcp::error_because("Failed to unlock file: ", e.as_str()),
    }
}

/// The branch that a lock is taken on, from what git says of the current branch and, where no
/// branch is checked out, of the current commit.
pub open spec fn branch_name(head: Option<Seq<char>>, commit: Option<Seq<char>>) -> Seq<char> {
    match head {
        None => "unknown"@,
        Some(h) => if text::trimmed(h) != "HEAD"@ {
            text::trimmed(h)
        } else {
            match commit {
                Some(c) => text::trimmed(c),
                None => "HEAD"@,
            }
        },
    }
}

/// Whether git has to be asked for the current commit.
pub fn needs_commit(head: Option<&str>) -> (r: bool)
    ensures
        r == (head matches Some(h) && text::trimmed(h@) == "HEAD"@),
{
    match head {
        Some(h) => text::str_eq(text::trim(h).as_str(), "HEAD"),
        None => false,
    }
}

/// Finds the branch that a lock is taken on.
pub fn current_branch(head: Option<&str>, commit: Option<&str>) -> (r: String)
    ensures
        r@ == branch_name(config::optional_str(head), config::optional_str(commit)),
{
    match head {
        None => text::copy("unknown"),
        Some(h) => {
            let branch = text::trim(h);
            if !text::str_eq(branch.as_str(), "HEAD") {
                branch
            } else {
                match commit {
                    Some(c) => text::trim(c),
                    None => text::copy("HEAD"),
                }
            }
        },
    }
}

// ---------------------------------------------------------------------------
// Laws
// ---------------------------------------------------------------------------

/// A call is watched by its project, and by its file where it names no project.
pub proof fn law_the_project_is_watched_before_the_file(args: Args)
    ensures
        args.text("project_path"@) is Some ==> watched_path(args) == args.text("project_path"@),
        args.text("project_path"@) is None ==> watched_path(args) == args.text("file_path"@),
{
}

/// A diff is sent where there is a baseline, both texts have at most half a million bytes, and
/// some lines but fewer than twenty in a hundred changed; the content is sent in all other cases.
pub proof fn law_diffs_are_sent_for_minor_changes(content: Seq<char>, before: Seq<char>)
    ensures
        !diff_is_sent(content, None),
        diff_is_sent(content, Some(before)) <==> (text::byte_len(content) <= 500_000
            && text::byte_len(before) <= 500_000 && ({
            let ratio = utils::ratio_of(utils::line_diff(before, content));
            ratio.0 > 0 && 100 * ratio.0 < 20 * ratio.1
        })),
{
}

/// Only a skeleton comes with the standards of the project.
pub proof fn law_skeletons_come_with_standards(
    request: ReadRequest,
    output: Seq<char>,
    s: Option<ProjectStandards>,
)
    ensures
        request.mode@ == "skeleton"@ ==> read_content(request, output, s)
            == standards::with_standards(s, request.file_path@, output),
        request.mode@ != "skeleton"@ ==> read_content(request, output, s) == output,
{
}

/// Four bytes make a token, and what remains of them makes none. A read that saves no byte is not
/// counted.
pub proof fn law_four_bytes_make_a_token(saved_bytes: usize, raw_bytes: usize)
    ensures
        savings_of(saved_bytes, raw_bytes) is None <==> saved_bytes == 0,
        savings_of(saved_bytes, raw_bytes) matches Some(s) ==> 4 * s.tokens_saved <= saved_bytes < 4
            * s.tokens_saved + 4 && 4 * s.total_tokens <= raw_bytes < 4 * s.total_tokens + 4,
{
}

/// A request to patch a file is taken where it names the file and the agent and has a hunk, and
/// refused in all other cases.
pub proof fn law_patches_need_a_file_a_hunk_and_an_agent(args: Args, hunks: HunksArg)
    ensures
        apply_refusal(args, hunks) is None <==> (args.text("file_path"@) is Some && args.text(
            "agent_id"@,
        ) is Some && (hunks matches HunksArg::Given(v) && v@.len() > 0)),
        args.text("file_path"@) is None ==> apply_refusal(args, hunks) == Some(
            "Missing required field: "@ + "file_path"@,
        ),
        args.text("file_path"@) is Some ==> (hunks matches HunksArg::Invalid(e) ==> apply_refusal(
            args,
            hunks,
        ) == Some("Invalid hunks format: "@ + e@)),
        args.text("file_path"@) is Some && hunks is Missing ==> apply_refusal(args, hunks) == Some(
            "Missing required field: "@ + "hunks"@,
        ),
        args.text("file_path"@) is Some && (hunks matches HunksArg::Given(v) && v@.len() == 0)
            ==> apply_refusal(args, hunks) == Some("hunks must be non-empty"@),
{
}

/// The refusal of a locked file names the file, who has it and on which branch.
pub proof fn law_the_holder_of_a_lock_is_named(file_path: Seq<char>, lock: FileLock)
    ensures
        text::begins_with(locked_text(file_path, lock), "ResourceLocked: File '"@ + file_path + "'"@),
        text::contains_text(locked_text(file_path, lock), "by agent '"@ + lock.agent_id@ + "'"@),
        text::finishes_with(
            locked_text(file_path, lock),
            "on virtual branch '"@ + lock.virtual_branch@ + "'."@,
        ),
{
    let all = locked_text(file_path, lock);
    let a = "' is actively locked by agent '"@;
    let b = "' on virtual branch '"@;
    reveal_strlit("' is actively locked by agent '");
    reveal_strlit("' on virtual branch '");
    reveal_strlit("by agent '");
    reveal_strlit("on virtual branch '");
    reveal_strlit("'");
    reveal_strlit("'.");
    let head = "ResourceLocked: File '"@ + file_path + "'"@;
    assert(all.subrange(0, head.len() as int) =~= head);
    let tail = "on virtual branch '"@ + lock.virtual_branch@ + "'."@;
    assert(all.subrange(all.len() - tail.len(), all.len() as int) =~= tail);
    let front = "ResourceLocked: File '"@ + file_path + a.take(a.len() - 10);
    let agent = "by agent '"@ + lock.agent_id@ + "'"@;
    let rest = b.skip(1) + lock.virtual_branch@ + "'."@;
    assert(a.skip(a.len() - 10) =~= "by agent '"@);
    assert(a =~= a.take(a.len() - 10) + "by agent '"@);
    assert(b =~= "'"@ + b.skip(1));
    assert(all =~= front + agent + rest);
    text::lemma_contains_between(front, agent, rest);
}

/// The reply to a patch tells how many lines were replaced and where. A lock that was claimed for
/// it is announced with its agent, and else nothing more is said.
pub proof fn law_a_patch_is_reported_with_its_lines(
    lines_changed: nat,
    file_path: Seq<char>,
    agent_id: Seq<char>,
)
    ensures
        applied_text(lines_changed, file_path, agent_id, false) == "Applied "@ + text::decimal(
            lines_changed,
        ) + " line replacement(s) to "@ + file_path,
        text::begins_with(
            applied_text(lines_changed, file_path, agent_id, true),
            applied_text(lines_changed, file_path, agent_id, false)
                + ". NOTE: A write lock was automatically acquired for this file under agent '"@
                + agent_id + "'"@,
        ),
{
    let all = applied_text(lines_changed, file_path, agent_id, true);
    let head = applied_text(lines_changed, file_path, agent_id, false)
        + ". NOTE: A write lock was automatically acquired for this file under agent '"@ + agent_id
        + "'"@;
    reveal_strlit("'");
    reveal_strlit("' and remains active. Remember to call unlock_file when you are finished modifying this file.");
    assert(all.subrange(0, head.len() as int) =~= head);
}

/// The branch is what git names, without white space around it; where no branch is checked out it
/// is the commit, and without git it is unknown.
pub proof fn law_the_branch_is_what_git_names(head: Seq<char>, commit: Seq<char>)
    ensures
        branch_name(None, Some(commit)) == "unknown"@,
        branch_name(None, None) == "unknown"@,
        text::trimmed(head) != "HEAD"@ ==> branch_name(Some(head), Some(commit)) == text::trimmed(
            head,
        ) && branch_name(Some(head), None) == text::trimmed(head),
        text::trimmed(head) == "HEAD"@ ==> branch_name(Some(head), Some(commit)) == text::trimmed(
            commit,
        ) && branch_name(Some(head), None) == "HEAD"@,
{
}

} // verus!
