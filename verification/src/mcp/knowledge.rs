//! Memories, decisions, co-changes and checks: reading requests and rendering replies.

use crate::db::CoChangeRecord;
use crate::db::DecisionRecord;
use crate::db::MemoryRecord;
use crate::mcp;
use crate::mcp::Args;
use crate::mcp::Reply;
use crate::text;
use crate::tools::gatekeeper::CheckResult;
use crate::tools::gatekeeper::GatekeeperResult;
use crate::tools::memory::RecallResult;
use crate::tools::memory::StoreResult;
use crate::utils;
use vstd::prelude::*;

verus! {

/// How many memories a search returns at most.
pub const RECALL_LIMIT_MAX: u64 = 50;

/// How many memories a search returns where nothing else is asked for.
pub const RECALL_LIMIT_DEFAULT: u64 = 5;

/// How much of a memory is shown, in bytes.
pub const MEMORY_CONTENT_MAX: usize = 4096;

/// How much of a decision and its context is stored, in bytes.
pub const DECISION_MAX: usize = 4096;

// ---------------------------------------------------------------------------
// Memories
// ---------------------------------------------------------------------------

/// A memory to store.
pub struct StoreRequest {
    pub key: String,
    pub content: String,
    pub project: String,
    pub tags: Vec<String>,
}

/// Reads a request to store a memory.
pub fn parse_store_memory(args: &Args) -> (r: Result<StoreRequest, Reply>)
    ensures
        match mcp::first_missing(*args, seq!["key"@, "content"@, "project"@], 0) {
            Some(n) => r matches Err(e) && e.fails(mcp::missing_text(n)),
            None => r matches Ok(q) && args.text("key"@) == Some(q.key@) && args.text("content"@)
                == Some(q.content@) && args.text("project"@) == Some(q.project@) && text::views(
                q.tags@,
            ) == args.texts("tags"@),
        },
{
    match mcp::required_triple(args, "key", "content", "project") {
        Err(e) => Err(mcp::error_content(e)),
        Ok((key, content, project)) => Ok(
            StoreRequest { key, content, project, tags: args.get_texts("tags") },
        ),
    }
}

/// The reply when a memory was stored.
pub open spec fn stored_text(s: StoreResult) -> Seq<char> {
    "Stored memory '"@ + s.key@ + "' in project '"@ + s.project@ + "' (embedding: "@ + (
    if s.embedded {
        "yes"@
    } else {
        "no — model unavailable, BM25 only"@
    }) + ")"@
}

/// Replies to a request to store a memory.
pub fn reply_store_memory(outcome: Result<StoreResult, String>) -> (r: Reply)
    ensures
        match outcome {
            Ok(s) => r.tells(stored_text(s)),
            Err(e) => r.fails("store_memory failed: "@ + e@),
        },
{
    match outcome {
        Ok(s) => {
            let mut t = text::copy("Stored memory '");
            t.append(s.key.as_str());
            t.append("' in project '");
            t.append(s.project.as_str());
            t.append("' (embedding: ");
            t.append(if s.embedded {
                "yes"
            } else {
                "no — model unavailable, BM25 only"
            });
            t.append(")");
            mcp::text_content(t)
        },
        Err(e) => mcp::error_because("store_memory failed: ", e.as_str()),
    }
}

/// A search for memories.
pub struct RecallRequest {
    pub query: String,
    pub project: String,
    pub limit: u32,
}

/// How many memories a search returns.
pub open spec fn recall_limit(asked: Option<u64>) -> nat {
    match asked {
        None => RECALL_LIMIT_DEFAULT as nat,
        Some(n) => if n <= RECALL_LIMIT_MAX {
            n as nat
        } else {
            RECALL_LIMIT_MAX as nat
        },
    }
}

/// Reads a request to search for memories.
pub fn parse_recall_memory(args: &Args) -> (r: Result<RecallRequest, Reply>)
    ensures
        match mcp::first_missing(*args, seq!["query"@, "project"@], 0) {
            Some(n) => r matches Err(e) && e.fails(mcp::missing_text(n)),
            None => r matches Ok(q) && args.text("query"@) == Some(q.query@) && args.text(
                "project"@,
            ) == Some(q.project@) && q.limit == recall_limit(args.number("limit"@)),
        },
{
    match mcp::required_pair(args, "query", "project") {
        Err(e) => Err(mcp::error_content(e)),
        Ok((query, project)) => {
            let asked: u64 = match args.get_number("limit") {
                Some(n) => n,
                None => RECALL_LIMIT_DEFAULT,
            };
            let limit: u32 = if asked <= RECALL_LIMIT_MAX {
                asked as u32
            } else {
                RECALL_LIMIT_MAX as u32
            };
            Ok(RecallRequest { query, project, limit })
        },
    }
}

/// One memory of a reply.
pub open spec fn memory_text(m: MemoryRecord) -> Seq<char> {
    "### ["@ + m.project@ + "] "@ + m.key@ + "\nTags: "@ + text::joined(
        text::views(m.tags@),
        ", "@,
    ) + "\nStored: "@ + m.created_at.minute() + "\n\n"@ + utils::truncated(
        m.content@,
        MEMORY_CONTENT_MAX as nat,
    )
}

/// The reply with the memories that were found.
pub open spec fn recalled_text(f: RecallResult) -> Seq<char> {
    if f.memories@.len() == 0 {
        "No memories found for this query (mode: "@ + f.search_mode@ + ")."@
    } else {
        "Found "@ + text::decimal(f.count as nat) + " memories (mode: "@ + f.search_mode@
            + "):\n\n"@ + text::joined(
            Seq::new(f.memories@.len(), |i: int| memory_text(f.memories@[i])),
            "\n---\n"@,
        )
    }
}

fn render_memory(m: &MemoryRecord) -> (r: String)
    requires
        m.created_at.wf(),
    ensures
        r@ == memory_text(*m),
{
    let mut content = m.content.clone();
    utils::safe_truncate(&mut content, MEMORY_CONTENT_MAX);
    let mut t = text::copy("### [");
    t.append(m.project.as_str());
    t.append("] ");
    t.append(m.key.as_str());
    t.append("\nTags: ");
    t.append(text::join(&m.tags, ", ").as_str());
    t.append("\nStored: ");
    t.append(m.created_at.minute_text().as_str());
    t.append("\n\n");
    t.append(content.as_str());
    t
}

/// Replies to a search for memories.
pub fn reply_recall_memory(outcome: Result<RecallResult, String>) -> (r: Reply)
    requires
        outcome matches Ok(f) ==> forall|i: int|
            0 <= i < f.memories@.len() ==> (#[trigger] f.memories@[i]).created_at.wf(),
    ensures
        match outcome {
            Ok(f) => r.tells(recalled_text(f)),
            Err(e) => r.fails("recall_memory failed: "@ + e@),
        },
{
    match outcome {
        Ok(f) => {
            if f.memories.len() == 0 {
                let mut t = text::copy("No memories found for this query (mode: ");
                t.append(f.search_mode.as_str());
                t.append(").");
                return mcp::text_content(t);
            }
            let mut parts: Vec<String> = Vec::new();
            let ghost all = Seq::new(f.memories@.len(), |i: int| memory_text(f.memories@[i]));
            let mut i: usize = 0;
            assert(text::views(parts@) =~= all.take(0));
            while i < f.memories.len()
                invariant
                    i <= f.memories@.len(),
                    all == Seq::new(f.memories@.len(), |k: int| memory_text(f.memories@[k])),
                    forall|k: int|
                        0 <= k < f.memories@.len() ==> (#[trigger] f.memories@[k]).created_at.wf(),
                    text::views(parts@) == all.take(i as int),
                decreases f.memories@.len() - i,
            {
                let ghost before = parts@;
                parts.push(render_memory(&f.memories[i]));
                proof {
                    text::lemma_views_push(before, parts@.last());
                    assert(all.take(i + 1) =~= all.take(i as int).push(all[i as int]));
                }
                i += 1;
            }
            assert(all.take(all.len() as int) =~= all);
            let mut t = text::copy("Found ");
            t.append(text::decimal_text(f.count as u128).as_str());
            t.append(" memories (mode: ");
            t.append(f.search_mode.as_str());
            t.append("):\n\n");
            t.append(text::join(&parts, "\n---\n").as_str());
            mcp::text_content(t)
        },
        Err(e) => mcp::error_because("recall_memory failed: ", e.as_str()),
    }
}

// ---------------------------------------------------------------------------
// Decisions
// ---------------------------------------------------------------------------

/// A decision to record.
pub struct DecisionRequest {
    pub project: String,
    pub decision: String,
    pub context: String,
    pub files: Vec<String>,
}

/// Reads a request to record a decision. Long texts are cut.
pub fn parse_record_decision(args: &Args) -> (r: Result<DecisionRequest, Reply>)
    ensures
        match mcp::first_missing(*args, seq!["project"@, "decision"@, "context"@], 0) {
            Some(n) => r matches Err(e) && e.fails(mcp::missing_text(n)),
            None => r matches Ok(q) && args.text("project"@) == Some(q.project@) && q.decision@
                == utils::truncated(args.text("decision"@)->0, DECISION_MAX as nat)
                && q.context@ == utils::truncated(args.text("context"@)->0, DECISION_MAX as nat)
                && text::views(q.files@) == args.texts("files"@),
        },
{
    match mcp::required_triple(args, "project", "decision", "context") {
        Err(e) => Err(mcp::error_content(e)),
        Ok((project, decision, context)) => {
            let mut decision = decision;
            let mut context = context;
            utils::safe_truncate(&mut decision, DECISION_MAX);
            utils::safe_truncate(&mut context, DECISION_MAX);
            Ok(DecisionRequest { project, decision, context, files: args.get_texts("files") })
        },
    }
}

/// Replies to a request to record a decision.
pub fn reply_record_decision(outcome: Result<StoreResult, String>) -> (r: Reply)
    ensures
        match outcome {
            Ok(s) => r.tells(
                "Recorded decision '"@ + s.key@ + "' for project '"@ + s.project@ + "'"@,
            ),
            Err(e) => r.fails("record_decision failed: "@ + e@),
        },
{
    match outcome {
        Ok(s) => {
            let mut t = text::copy("Recorded decision '");
            t.append(s.key.as_str());
            t.append("' for project '");
            t.append(s.project.as_str());
            t.append("'");
            mcp::text_content(t)
        },
        Err(e) => mcp::error_because("record_decision failed: ", e.as_str()),
    }
}

/// A question for the decisions on some files.
pub struct WhyRequest {
    pub project: String,
    pub files: Vec<String>,
}

/// Reads a question for decisions.
pub fn parse_get_why(args: &Args) -> (r: Result<WhyRequest, Reply>)
    ensures
        match args.text("project"@) {
            None => r matches Err(e) && e.fails(mcp::missing_text("project"@)),
            Some(p) => r matches Ok(q) && q.project@ == p && text::views(q.files@) == args.texts(
                "files"@,
            ),
        },
{
    match args.required("project") {
        Err(e) => Err(mcp::error_content(e)),
        Ok(project) => Ok(WhyRequest { project, files: args.get_texts("files") }),
    }
}

/// One decision of a reply.
pub open spec fn decision_text(d: DecisionRecord) -> Seq<char> {
    "### Decision: "@ + d.decision@ + "\nID: "@ + d.id@ + "\nConfidence: "@ + d.shown_confidence()
        + "\nContext: "@ + d.context@ + "\nGoverned Files: "@ + text::joined(
        text::views(d.governed_files@),
        ", "@,
    )
}

/// The reply with the decisions that were found.
pub open spec fn decisions_text(ds: Seq<DecisionRecord>) -> Seq<char> {
    if ds.len() == 0 {
        "No governing decisions found for these files."@
    } else {
        "Found "@ + text::decimal(ds.len()) + " governing decisions:\n\n"@ + text::joined(
            Seq::new(ds.len(), |i: int| decision_text(ds[i])),
            "\n---\n"@,
        )
    }
}

fn render_decision(d: &DecisionRecord) -> (r: String)
    ensures
        r@ == decision_text(*d),
{
    let mut t = text::copy("### Decision: ");
    t.append(d.decision.as_str());
    t.append("\nID: ");
    t.append(d.id.as_str());
    t.append("\nConfidence: ");
    t.append(d.confidence_text().as_str());
    t.append("\nContext: ");
    t.append(d.context.as_str());
    t.append("\nGoverned Files: ");
    t.append(text::join(&d.governed_files, ", ").as_str());
    t
}

/// Replies to a question for decisions.
pub fn reply_get_why(outcome: Result<Vec<DecisionRecord>, String>) -> (r: Reply)
    ensures
        match outcome {
            Ok(ds) => r.tells(decisions_text(ds@)),
            Err(e) => r.fails("get_why failed: "@ + e@),
        },
{
    match outcome {
        Ok(ds) => {
            if ds.len() == 0 {
                return mcp::text_content(
                    text::copy("No governing decisions found for these files."),
                );
            }
            let mut parts: Vec<String> = Vec::new();
            let ghost all = Seq::new(ds@.len(), |i: int| decision_text(ds@[i]));
            let mut i: usize = 0;
            assert(text::views(parts@) =~= all.take(0));
            while i < ds.len()
                invariant
                    i <= ds@.len(),
                    all == Seq::new(ds@.len(), |k: int| decision_text(ds@[k])),
                    text::views(parts@) == all.take(i as int),
                decreases ds@.len() - i,
            {
                let ghost before = parts@;
                parts.push(render_decision(&ds[i]));
                proof {
                    text::lemma_views_push(before, parts@.last());
                    assert(all.take(i + 1) =~= all.take(i as int).push(all[i as int]));
                }
                i += 1;
            }
            assert(all.take(all.len() as int) =~= all);
            let mut t = text::copy("Found ");
            t.append(text::decimal_text(ds.len() as u128).as_str());
            t.append(" governing decisions:\n\n");
            t.append(text::join(&parts, "\n---\n").as_str());
            mcp::text_content(t)
        },
        Err(e) => mcp::error_because("get_why failed: ", e.as_str()),
    }
}

/// A decision to confirm.
pub struct ConfirmRequest {
    pub decision_id: String,
    pub project: String,
}

/// Reads a request to confirm a decision.
pub fn parse_confirm_decision(args: &Args) -> (r: Result<ConfirmRequest, Reply>)
    ensures
        match mcp::first_missing(*args, seq!["decision_id"@, "project"@], 0) {
            Some(n) => r matches Err(e) && e.fails(mcp::missing_text(n)),
            None => r matches Ok(q) && args.text("decision_id"@) == Some(q.decision_id@)
                && args.text("project"@) == Some(q.project@),
        },
{
    match mcp::required_pair(args, "decision_id", "project") {
        Err(e) => Err(mcp::error_content(e)),
        Ok((decision_id, project)) => Ok(ConfirmRequest { decision_id, project }),
    }
}

/// Replies to a request to confirm a decision.
pub fn reply_confirm_decision(decision_id: &str, outcome: Result<(), String>) -> (r: Reply)
    ensures
        match outcome {
            Ok(_) => r.tells("Successfully confirmed decision "@ + decision_id@),
            Err(e) => r.fails("confirm_decision failed: "@ + e@),
        },
{
    match outcome {
        Ok(_) => {
            let mut t = text::copy("Successfully confirmed decision ");
            t.append(decision_id);
            mcp::text_content(t)
        },
        Err(e) => mcp::error_because("confirm_decision failed: ", e.as_str()),
    }
}

// ---------------------------------------------------------------------------
// Co-changes
// ---------------------------------------------------------------------------

/// Whether files were changed together: there are several of them.
pub fn is_co_change(modified: &Vec<String>) -> (r: bool)
    ensures
        r == (modified@.len() > 1),
{
    modified.len() > 1
}

/// Reads a question for co-changes: the project.
pub fn parse_get_co_changes(args: &Args) -> (r: Result<String, Reply>)
    ensures
        match args.text("project"@) {
            None => r matches Err(e) && e.fails(mcp::missing_text("project"@)),
            Some(p) => r matches Ok(q) && q@ == p,
        },
{
    match args.required("project") {
        Err(e) => Err(mcp::error_content(e)),
        Ok(project) => Ok(project),
    }
}

/// The first `n` files of a cluster, one to a line.
pub open spec fn cluster_files(files: Seq<Seq<char>>, n: nat) -> Seq<char>
    decreases n,
{
    if n == 0 {
        Seq::empty()
    } else {
        cluster_files(files, (n - 1) as nat) + ("  * "@ + files[n - 1] + "\n"@)
    }
}

/// One cluster of a reply.
pub open spec fn cluster_text(c: CoChangeRecord) -> Seq<char> {
    "- Files modified together at "@ + c.created_at.exact() + ":\n"@ + cluster_files(
        text::views(c.files@),
        c.files@.len(),
    ) + "\n"@
}

/// The first `n` clusters of a reply.
pub open spec fn clusters(cs: Seq<CoChangeRecord>, n: nat) -> Seq<char>
    decreases n,
{
    if n == 0 {
        "Recent file co-change clusters:\n\n"@
    } else {
        clusters(cs, (n - 1) as nat) + cluster_text(cs[n - 1])
    }
}

/// The reply with the co-changes that were found.
pub open spec fn co_changes_text(cs: Seq<CoChangeRecord>) -> Seq<char> {
    if cs.len() == 0 {
        "No co-change records found for this project."@
    } else {
        clusters(cs, cs.len())
    }
}

fn render_cluster(c: &CoChangeRecord) -> (r: String)
    requires
        c.created_at.wf(),
    ensures
        r@ == cluster_text(*c),
{
    let mut files = String::new();
    let ghost fs = text::views(c.files@);
    let mut i: usize = 0;
    while i < c.files.len()
        invariant
            i <= c.files@.len(),
            fs == text::views(c.files@),
            files@ == cluster_files(fs, i as nat),
        decreases c.files@.len() - i,
    {
        let mut line = text::copy("  * ");
        line.append(c.files[i].as_str());
        line.append("\n");
        files.append(line.as_str());
        i += 1;
    }
    let mut t = text::copy("- Files modified together at ");
    t.append(c.created_at.exact_text().as_str());
    t.append(":\n");
    t.append(files.as_str());
    t.append("\n");
    t
}

/// Replies to a question for co-changes.
pub fn reply_get_co_changes(outcome: Result<Vec<CoChangeRecord>, String>) -> (r: Reply)
    requires
        outcome matches Ok(cs) ==> forall|i: int|
            0 <= i < cs@.len() ==> (#[trigger] cs@[i]).created_at.wf(),
    ensures
        match outcome {
            Ok(cs) => r.tells(co_changes_text(cs@)),
            Err(e) => r.fails("Failed to retrieve co-changes: "@ + e@),
        },
{
    match outcome {
        Ok(cs) => {
            if cs.len() == 0 {
                return mcp::text_content(
                    text::copy("No co-change records found for this project."),
                );
            }
            let mut t = text::copy("Recent file co-change clusters:\n\n");
            let mut i: usize = 0;
            while i < cs.len()
                invariant
                    i <= cs@.len(),
                    forall|k: int| 0 <= k < cs@.len() ==> (#[trigger] cs@[k]).created_at.wf(),
                    t@ == clusters(cs@, i as nat),
                decreases cs@.len() - i,
            {
                t.append(render_cluster(&cs[i]).as_str());
                i += 1;
            }
            mcp::text_content(t)
        },
        Err(e) => mcp::error_because("Failed to retrieve co-changes: ", e.as_str()),
    }
}

// ---------------------------------------------------------------------------
// Checks
// ---------------------------------------------------------------------------

/// A request to run the checks of a target.
pub struct CheckRequest {
    pub project_path: String,
    pub target: String,
}

/// Reads a request to run checks.
pub fn parse_pre_push_check(args: &Args) -> (r: Result<CheckRequest, Reply>)
    ensures
        match mcp::first_missing(*args, seq!["project_path"@, "target"@], 0) {
            Some(n) => r matches Err(e) && e.fails(mcp::missing_text(n)),
            None => r matches Ok(q) && args.text("project_path"@) == Some(q.project_path@)
                && args.text("target"@) == Some(q.target@),
        },
{
    match mcp::required_pair(args, "project_path", "target") {
        Err(e) => Err(mcp::error_content(e)),
        Ok((project_path, target)) => Ok(CheckRequest { project_path, target }),
    }
}

/// The headline of a run of checks.
pub open spec fn verdict_text(passed: bool, target: Seq<char>) -> Seq<char> {
    (if passed {
        "✅ All checks passed for target '"@
    } else {
        "❌ Checks FAILED for target '"@
    }) + target + "'"@
}

/// Renders the headline of a run of checks.
pub fn render_verdict(passed: bool, target: &str) -> (r: String)
    ensures
        r@ == verdict_text(passed, target@),
{
    let mut t = text::copy(if passed {
        "✅ All checks passed for target '"
    } else {
        "❌ Checks FAILED for target '"
    });
    t.append(target);
    t.append("'");
    t
}

/// One check of a reply: the outcome, the command, the exit code and the output.
pub open spec fn check_text(c: CheckResult) -> Seq<char> {
    (if c.passed {
        "✅"@
    } else {
        "❌"@
    }) + " `"@ + c.command@ + "`"@ + (match c.exit_code {
        Some(n) => " (exit "@ + text::signed_decimal(n as int) + ")"@,
        None => ""@,
    }) + (if text::is_blank(c.output@) {
        ""@
    } else {
        "\n```\n"@ + text::trimmed(c.output@) + "\n```"@
    })
}

/// The reply on a run of checks.
pub open spec fn checks_text(g: GatekeeperResult) -> Seq<char> {
    verdict_text(g.passed, g.target@) + "\n\n"@ + text::joined(
        Seq::new(g.checks@.len(), |i: int| check_text(g.checks@[i])),
        "\n\n"@,
    )
}

fn render_check(c: &CheckResult) -> (r: String)
    ensures
        r@ == check_text(*c),
{
    let mut t = text::copy(if c.passed {
        "✅"
    } else {
        "❌"
    });
    t.append(" `");
    t.append(c.command.as_str());
    t.append("`");
    let mut code = text::copy("");
    if let Some(n) = c.exit_code {
        code = text::copy(" (exit ");
        code.append(text::signed_decimal_text(n as i64).as_str());
        code.append(")");
    }
    t.append(code.as_str());
    let mut out = text::copy("");
    if !text::blank(c.output.as_str()) {
        out = text::copy("\n```\n");
        out.append(text::trim(c.output.as_str()).as_str());
        out.append("\n```");
    }
    t.append(out.as_str());
    t
}

/// Replies to a request to run checks: with an error unless all of them passed.
pub fn reply_pre_push_check(outcome: Result<GatekeeperResult, String>) -> (r: Reply)
    ensures
        match outcome {
            Ok(g) => if g.passed {
                r.tells(checks_text(g))
            } else {
                r.fails(checks_text(g))
            },
            Err(e) => r.fails("pre_push_check failed: "@ + e@),
        },
{
    match outcome {
        Ok(g) => {
            let mut parts: Vec<String> = Vec::new();
            let ghost all = Seq::new(g.checks@.len(), |i: int| check_text(g.checks@[i]));
            let mut i: usize = 0;
            assert(text::views(parts@) =~= all.take(0));
            while i < g.checks.len()
                invariant
                    i <= g.checks@.len(),
                    all == Seq::new(g.checks@.len(), |k: int| check_text(g.checks@[k])),
                    text::views(parts@) == all.take(i as int),
                decreases g.checks@.len() - i,
            {
                let ghost before = parts@;
                parts.push(render_check(&g.checks[i]));
                proof {
                    text::lemma_views_push(before, parts@.last());
                    assert(all.take(i + 1) =~= all.take(i as int).push(all[i as int]));
                }
                i += 1;
            }
            assert(all.take(all.len() as int) =~= all);
            let mut t = render_verdict(g.passed, g.target.as_str());
            t.append("\n\n");
            t.append(text::join(&parts, "\n\n").as_str());
            if g.passed {
                mcp::text_content(t)
            } else {
                mcp::error_content(t)
            }
        },
        Err(e) => mcp::error_because("pre_push_check failed: ", e.as_str()),
    }
}

// ---------------------------------------------------------------------------
// Laws
// ---------------------------------------------------------------------------

/// A search returns as many memories as asked for, but never more than fifty, and five where
/// nothing is asked for.
pub proof fn law_recall_is_limited(asked: u64)
    ensures
        recall_limit(None) == 5,
        asked <= 50 ==> recall_limit(Some(asked)) == asked,
        asked > 50 ==> recall_limit(Some(asked)) == 50,
{
}

/// Memories and decisions are cut at four kibibytes.
pub proof fn law_long_texts_are_cut_at_four_kibibytes()
    ensures
        MEMORY_CONTENT_MAX == 4 * 1024,
        DECISION_MAX == 4 * 1024,
{
}

/// A memory is shown with its project and key in front, and with its content at the end: whole,
/// where it is short enough.
pub proof fn law_a_memory_is_shown_with_its_content(m: MemoryRecord)
    ensures
        text::begins_with(memory_text(m), "### ["@ + m.project@ + "] "@ + m.key@ + "\nTags: "@),
        text::contains_text(memory_text(m), "\nStored: "@ + m.created_at.minute() + "\n\n"@),
        text::byte_len(m.content@) <= 4096 ==> text::finishes_with(
            memory_text(m),
            "\n\n"@ + m.content@,
        ),
        forall|i: int|
            0 <= i < m.tags@.len() ==> text::contains_text(
                memory_text(m),
                (#[trigger] m.tags@[i])@,
            ),
{
    let all = memory_text(m);
    let head = "### ["@ + m.project@ + "] "@ + m.key@ + "\nTags: "@;
    let tags = text::joined(text::views(m.tags@), ", "@);
    let stored = "\nStored: "@ + m.created_at.minute() + "\n\n"@;
    let body = utils::truncated(m.content@, MEMORY_CONTENT_MAX as nat);
    assert(all.subrange(0, head.len() as int) =~= head);
    assert(all =~= (head + tags) + stored + body);
    text::lemma_contains_between(head + tags, stored, body);
    if text::byte_len(m.content@) <= 4096 {
        let tail = "\n\n"@ + m.content@;
        assert(all.subrange(all.len() - tail.len(), all.len() as int) =~= tail);
    }
    assert forall|i: int| 0 <= i < m.tags@.len() implies text::contains_text(
        all,
        (#[trigger] m.tags@[i])@,
    ) by {
        text::law_joined_texts_hold_their_parts(text::views(m.tags@), ", "@, i);
        assert(text::views(m.tags@)[i] == m.tags@[i]@);
        assert(all =~= head + tags + (stored + body));
        text::lemma_contains_within(head, tags, stored + body, m.tags@[i]@);
    }
}

/// Every memory that was found is shown, behind how many there are and how they were searched for.
pub proof fn law_every_memory_is_shown(f: RecallResult, i: int)
    requires
        0 <= i < f.memories@.len(),
    ensures
        text::contains_text(recalled_text(f), memory_text(f.memories@[i])),
        text::begins_with(
            recalled_text(f),
            "Found "@ + text::decimal(f.count as nat) + " memories (mode: "@ + f.search_mode@
                + "):\n\n"@,
        ),
{
    let parts = Seq::new(f.memories@.len(), |k: int| memory_text(f.memories@[k]));
    let head = "Found "@ + text::decimal(f.count as nat) + " memories (mode: "@ + f.search_mode@
        + "):\n\n"@;
    let all = recalled_text(f);
    text::law_joined_texts_hold_their_parts(parts, "\n---\n"@, i);
    let body = text::joined(parts, "\n---\n"@);
    assert(all =~= head + body + Seq::<char>::empty());
    text::lemma_contains_within(head, body, Seq::empty(), parts[i]);
    assert(all.subrange(0, head.len() as int) =~= head);
}

/// A search that found nothing says so.
pub proof fn law_no_memories_are_reported_as_such(f: RecallResult)
    requires
        f.memories@.len() == 0,
    ensures
        recalled_text(f) == "No memories found for this query (mode: "@ + f.search_mode@ + ")."@,
{
}

/// A decision is shown with its identifier, its confidence, its context and every file that it
/// governs.
pub proof fn law_a_decision_is_shown_with_its_files(d: DecisionRecord)
    ensures
        text::begins_with(
            decision_text(d),
            "### Decision: "@ + d.decision@ + "\nID: "@ + d.id@ + "\nConfidence: "@
                + d.shown_confidence() + "\nContext: "@ + d.context@ + "\nGoverned Files: "@,
        ),
        forall|i: int|
            0 <= i < d.governed_files@.len() ==> text::contains_text(
                decision_text(d),
                (#[trigger] d.governed_files@[i])@,
            ),
{
    let all = decision_text(d);
    let head = "### Decision: "@ + d.decision@ + "\nID: "@ + d.id@ + "\nConfidence: "@
        + d.shown_confidence() + "\nContext: "@ + d.context@ + "\nGoverned Files: "@;
    let files = text::views(d.governed_files@);
    let body = text::joined(files, ", "@);
    assert(all.subrange(0, head.len() as int) =~= head);
    assert forall|i: int| 0 <= i < d.governed_files@.len() implies text::contains_text(
        all,
        (#[trigger] d.governed_files@[i])@,
    ) by {
        text::law_joined_texts_hold_their_parts(files, ", "@, i);
        assert(files[i] == d.governed_files@[i]@);
        assert(all =~= head + body + Seq::<char>::empty());
        text::lemma_contains_within(head, body, Seq::empty(), files[i]);
    }
}

/// Every decision that was found is shown, behind how many there are.
pub proof fn law_every_decision_is_shown(ds: Seq<DecisionRecord>, i: int)
    requires
        0 <= i < ds.len(),
    ensures
        text::contains_text(decisions_text(ds), decision_text(ds[i])),
        text::begins_with(
            decisions_text(ds),
            "Found "@ + text::decimal(ds.len()) + " governing decisions:\n\n"@,
        ),
{
    let parts = Seq::new(ds.len(), |k: int| decision_text(ds[k]));
    let head = "Found "@ + text::decimal(ds.len()) + " governing decisions:\n\n"@;
    let all = decisions_text(ds);
    text::law_joined_texts_hold_their_parts(parts, "\n---\n"@, i);
    let body = text::joined(parts, "\n---\n"@);
    assert(all =~= head + body + Seq::<char>::empty());
    text::lemma_contains_within(head, body, Seq::empty(), parts[i]);
    assert(all.subrange(0, head.len() as int) =~= head);
}

/// A stored memory is reported with its key, its project and whether it has an embedding.
pub proof fn law_a_stored_memory_is_reported(s: StoreResult)
    ensures
        s.embedded ==> stored_text(s) == "Stored memory '"@ + s.key@ + "' in project '"@ + s.project@
            + "' (embedding: "@ + "yes"@ + ")"@,
        !s.embedded ==> stored_text(s) == "Stored memory '"@ + s.key@ + "' in project '"@
            + s.project@ + "' (embedding: "@ + "no — model unavailable, BM25 only"@ + ")"@,
{
}

/// Each file of a cluster is shown on a line of its own.
pub proof fn law_a_file_of_a_cluster_has_its_line(files: Seq<Seq<char>>, i: int)
    requires
        0 <= i < files.len(),
    ensures
        cluster_files(files, 0).len() == 0,
        cluster_files(files, (i + 1) as nat) == cluster_files(files, i as nat) + "  * "@ + files[i]
            + "\n"@,
{
    assert(cluster_files(files, (i + 1) as nat) =~= cluster_files(files, i as nat) + "  * "@
        + files[i] + "\n"@);
}

/// Each cluster is shown behind those in front of it, with its time and all of its files.
pub proof fn law_each_cluster_is_shown(cs: Seq<CoChangeRecord>, i: int)
    requires
        0 <= i < cs.len(),
    ensures
        co_changes_text(cs) == clusters(cs, cs.len()),
        clusters(cs, 0) == "Recent file co-change clusters:\n\n"@,
        clusters(cs, (i + 1) as nat) == clusters(cs, i as nat) + "- Files modified together at "@
            + cs[i].created_at.exact() + ":\n"@ + cluster_files(
            text::views(cs[i].files@),
            cs[i].files@.len(),
        ) + "\n"@,
{
    assert(clusters(cs, (i + 1) as nat) =~= clusters(cs, i as nat)
        + "- Files modified together at "@ + cs[i].created_at.exact() + ":\n"@ + cluster_files(
        text::views(cs[i].files@),
        cs[i].files@.len(),
    ) + "\n"@);
}

/// The headline tells whether the checks passed, and for which target.
pub proof fn law_the_verdict_tells_the_outcome(target: Seq<char>)
    ensures
        verdict_text(true, target) == "✅ All checks passed for target '"@ + target + "'"@,
        verdict_text(false, target) == "❌ Checks FAILED for target '"@ + target + "'"@,
{
}

/// A check is shown with its outcome and command, its exit code where it has one, and its output
/// where it has some.
pub proof fn law_a_check_is_shown_with_its_output(c: CheckResult)
    ensures
        text::begins_with(
            check_text(c),
            (if c.passed {
                "✅"@
            } else {
                "❌"@
            }) + " `"@ + c.command@ + "`"@,
        ),
        c.exit_code matches Some(n) ==> text::contains_text(
            check_text(c),
            " (exit "@ + text::signed_decimal(n as int) + ")"@,
        ),
        !text::is_blank(c.output@) ==> text::finishes_with(
            check_text(c),
            "\n```\n"@ + text::trimmed(c.output@) + "\n```"@,
        ),
        text::is_blank(c.output@) && c.exit_code is None ==> text::finishes_with(
            check_text(c),
            "`"@,
        ),
{
    let all = check_text(c);
    let head = (if c.passed {
        "✅"@
    } else {
        "❌"@
    }) + " `"@ + c.command@ + "`"@;
    let tail = if text::is_blank(c.output@) {
        ""@
    } else {
        "\n```\n"@ + text::trimmed(c.output@) + "\n```"@
    };
    assert(all.subrange(0, head.len() as int) =~= head);
    assert(all.subrange(all.len() - tail.len(), all.len() as int) =~= tail);
    if let Some(n) = c.exit_code {
        text::lemma_contains_between(
            head,
            " (exit "@ + text::signed_decimal(n as int) + ")"@,
            tail,
        );
    }
    reveal_strlit("");
    if text::is_blank(c.output@) && c.exit_code is None {
        let mark = "`"@;
        assert(all =~= head);
        assert(all.subrange(all.len() - mark.len(), all.len() as int) =~= mark);
    }
}

/// Every check that ran is shown below the headline.
pub proof fn law_every_check_is_shown(g: GatekeeperResult, i: int)
    requires
        0 <= i < g.checks@.len(),
    ensures
        text::begins_with(checks_text(g), verdict_text(g.passed, g.target@) + "\n\n"@),
        text::contains_text(checks_text(g), check_text(g.checks@[i])),
{
    let parts = Seq::new(g.checks@.len(), |k: int| check_text(g.checks@[k]));
    let head = verdict_text(g.passed, g.target@) + "\n\n"@;
    let all = checks_text(g);
    text::law_joined_texts_hold_their_parts(parts, "\n\n"@, i);
    let body = text::joined(parts, "\n\n"@);
    assert(all =~= head + body + Seq::<char>::empty());
    text::lemma_contains_within(head, body, Seq::empty(), parts[i]);
    assert(all.subrange(0, head.len() as int) =~= head);
}

} // verus!
