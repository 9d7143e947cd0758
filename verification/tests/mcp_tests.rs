use klaar::cache::SearchCache;
use klaar::db::{CoChangeRecord, DecisionRecord, FileLock, MemoryRecord, Timestamp};
use klaar::mcp::catalog::{dispatch, hunk_properties, tool_list, Kind, Preset, ToolName};
use klaar::mcp::files::{
    after_apply, after_claim, after_lock_check, answer_content, answer_read, cached_read, choose_body,
    current_branch, lock_decision, needs_commit, parse_fast_apply, parse_lock, parse_surgical_read,
    path_to_watch, reply_diff, reply_lock, reply_unlock, resolved_or_given, savings_note, shown_content,
    ApplyOutcome, ApplyRequest, ApplyStep, HunksArg, LockRequest, ReadBody, ReadRequest, Savings,
};
use klaar::mcp::knowledge::{
    is_co_change, parse_confirm_decision, parse_get_co_changes, parse_get_why,
    parse_pre_push_check, parse_recall_memory, parse_record_decision, parse_store_memory,
    reply_confirm_decision, reply_get_co_changes, reply_get_why, reply_pre_push_check,
    reply_recall_memory, reply_record_decision, reply_store_memory,
};
use klaar::mcp::lookup::{
    answer_grep, cached_grep, parse_find_symbol, parse_grep, parse_ls, reply_find_symbol, reply_ls,
};
use klaar::mcp::{is_answered, route_message, Arg, ArgValue, Args, Reply, Route};
use klaar::parser::Symbol;
use klaar::tools::apply::Hunk;
use klaar::tools::gatekeeper::{CheckResult, GatekeeperResult};
use klaar::tools::index::ProjectIndex;
use klaar::tools::memory::{decision_recorded, memories_recalled, memory_stored};
use klaar::tools::read::ReadOutput;

fn args(items: Vec<(&str, ArgValue)>) -> Args {
    Args {
        items: items
            .into_iter()
            .map(|(name, value)| Arg { name: name.to_string(), value })
            .collect(),
    }
}

fn t(s: &str) -> ArgValue {
    ArgValue::Text(s.to_string())
}

fn says(r: &Reply) -> (bool, &str) {
    (r.is_error, r.text.as_str())
}

fn at(secs: i64) -> Timestamp {
    Timestamp::new(secs, 0).unwrap()
}

#[test]
fn messages_are_routed() {
    assert_eq!(route_message(None, true), Route::ParseError);
    assert_eq!(route_message(Some("initialize"), true), Route::Initialize);
    assert_eq!(route_message(Some("tools/list"), true), Route::ToolsList);
    assert_eq!(route_message(Some("tools/call"), true), Route::ToolsCall);
    assert_eq!(route_message(Some("ping"), true), Route::Ping);
    assert_eq!(route_message(Some("nope"), true), Route::UnknownMethod);
    for m in ["initialize", "tools/call", "nope", "notifications/initialized"] {
        let r = route_message(Some(m), false);
        assert_eq!(r, Route::Notification);
        assert!(!is_answered(r));
    }
    assert!(is_answered(Route::ParseError));
    assert!(is_answered(Route::UnknownMethod));
}

#[test]
fn every_offered_tool_is_dispatched() {
    let tools = tool_list();
    assert_eq!(tools.len(), 14);
    let mut seen = Vec::new();
    for tool in &tools {
        let route = dispatch(&tool.name).expect("an offered tool can be called");
        assert!(!seen.contains(&route));
        seen.push(route);
        assert!(!tool.description.is_empty());
        assert!(tool.properties.iter().any(|p| p.required));
    }
    assert_eq!(dispatch("klaar_grep"), Ok(ToolName::Grep));
    assert_eq!(dispatch("klaar_ls"), Ok(ToolName::Ls));
    assert_eq!(dispatch("klaar_find_symbol"), Ok(ToolName::FindSymbol));
    assert_eq!(dispatch("rm"), Err("Unknown tool: 'rm'".to_string()));
}

#[test]
fn offered_arguments_have_kinds_and_presets() {
    let tools = tool_list();
    let find = |tool: &str, name: &str| {
        let t = tools.iter().find(|t| t.name == tool).unwrap();
        let p = t.properties.iter().find(|p| p.name == name).unwrap();
        (p.kind, p.preset, p.maximum, p.required, p.choices.clone())
    };
    assert_eq!(
        find("surgical_read", "mode"),
        (
            Kind::Text,
            Preset::Nothing,
            None,
            true,
            vec!["skeleton".to_string(), "full".to_string(), "compressed".to_string()]
        )
    );
    assert_eq!(
        find("recall_memory", "limit"),
        (Kind::Integer, Preset::Number(5), Some(50), false, Vec::new())
    );
    assert_eq!(
        find("grep", "case_insensitive"),
        (Kind::Boolean, Preset::Flag(true), None, false, Vec::new())
    );
    assert_eq!(find("fast_apply", "hunks").0, Kind::HunkList);
    assert_eq!(find("store_memory", "tags").0, Kind::TextList);
    assert_eq!(hunk_properties().len(), 3);
    assert!(hunk_properties().iter().all(|p| p.required));
}

#[test]
fn missing_arguments_are_named_in_order() {
    let e = parse_surgical_read(&args(vec![("mode", t("full"))])).err().unwrap();
    assert_eq!(says(&e), (true, "Missing required field: file_path"));
    let e = parse_surgical_read(&args(vec![("file_path", t("a"))])).err().unwrap();
    assert_eq!(says(&e), (true, "Missing required field: mode"));
    let e = parse_surgical_read(&args(vec![("file_path", t("a")), ("mode", t("full"))])).err().unwrap();
    assert_eq!(says(&e), (true, "Missing required field: agent_id"));
    let e = parse_surgical_read(&args(vec![("file_path", ArgValue::Number(1))])).err().unwrap();
    assert_eq!(says(&e), (true, "Missing required field: file_path"));
    let q = parse_surgical_read(&args(vec![
        ("file_path", t("a")),
        ("mode", t("full")),
        ("agent_id", t("me")),
    ]))
    .ok()
    .unwrap();
    assert_eq!((q.file_path.as_str(), q.mode.as_str(), q.agent_id.as_str()), ("a", "full", "me"));
    assert_eq!(says(&parse_store_memory(&args(vec![("key", t("k"))])).err().unwrap()).1, "Missing required field: content");
    assert_eq!(says(&parse_confirm_decision(&args(vec![])).err().unwrap()).1, "Missing required field: decision_id");
    assert_eq!(says(&parse_pre_push_check(&args(vec![("project_path", t("/p"))])).err().unwrap()).1, "Missing required field: target");
    assert_eq!(says(&parse_lock(&args(vec![("file_path", t("a"))])).err().unwrap()).1, "Missing required field: agent_id");
    assert_eq!(says(&parse_find_symbol(&args(vec![])).err().unwrap()).1, "Missing required field: symbol");
    assert_eq!(says(&parse_get_co_changes(&args(vec![])).err().unwrap()).1, "Missing required field: project");
    assert_eq!(says(&parse_get_why(&args(vec![])).err().unwrap()).1, "Missing required field: project");
}

#[test]
fn lists_keep_their_texts() {
    let tags = ArgValue::List(vec![Some("a".to_string()), None, Some("b".to_string())]);
    let q = parse_store_memory(&args(vec![
        ("key", t("k")),
        ("content", t("c")),
        ("project", t("p")),
        ("tags", tags),
    ]))
    .ok()
    .unwrap();
    assert_eq!(q.tags, vec!["a".to_string(), "b".to_string()]);
    let q = parse_get_why(&args(vec![("project", t("p")), ("files", t("not a list"))])).ok().unwrap();
    assert!(q.files.is_empty());
}

#[test]
fn recall_limits_are_capped() {
    let limit = |v: Option<ArgValue>| {
        let mut items = vec![("query", t("q")), ("project", t("p"))];
        if let Some(v) = v {
            items.push(("limit", v));
        }
        parse_recall_memory(&args(items)).ok().unwrap().limit
    };
    assert_eq!(limit(None), 5);
    assert_eq!(limit(Some(ArgValue::Number(3))), 3);
    assert_eq!(limit(Some(ArgValue::Number(50))), 50);
    assert_eq!(limit(Some(ArgValue::Number(51))), 50);
    assert_eq!(limit(Some(ArgValue::Number(u64::MAX))), 50);
    assert_eq!(limit(Some(t("7"))), 5);
}

#[test]
fn decisions_are_cut_before_they_are_stored() {
    let long = "d".repeat(5000);
    let q = parse_record_decision(&args(vec![
        ("project", t("p")),
        ("decision", t(&long)),
        ("context", t("why")),
        ("files", ArgValue::List(vec![Some("a.rs".to_string())])),
    ]))
    .ok()
    .unwrap();
    assert_eq!(q.decision.len(), 4096 + 23);
    assert_eq!(q.context, "why");
    assert_eq!(q.files, vec!["a.rs".to_string()]);
}

#[test]
fn store_replies() {
    let ok = reply_store_memory(Ok(memory_stored("k".to_string(), "p".to_string(), true)));
    assert_eq!(says(&ok), (false, "Stored memory 'k' in project 'p' (embedding: yes)"));
    let ok = reply_store_memory(Ok(memory_stored("k".to_string(), "p".to_string(), false)));
    assert_eq!(
        says(&ok).1,
        "Stored memory 'k' in project 'p' (embedding: no — model unavailable, BM25 only)"
    );
    assert_eq!(
        says(&reply_store_memory(Err("down".to_string()))),
        (true, "store_memory failed: down")
    );
    let r = decision_recorded("d".to_string(), "p".to_string());
    assert_eq!((r.status.as_str(), r.embedded), ("decision_recorded", false));
    assert_eq!(
        says(&reply_record_decision(Ok(r))),
        (false, "Recorded decision 'd' for project 'p'")
    );
    assert_eq!(
        says(&reply_record_decision(Err("x".to_string()))),
        (true, "record_decision failed: x")
    );
    assert_eq!(
        says(&reply_confirm_decision("id", Ok(()))),
        (false, "Successfully confirmed decision id")
    );
    assert_eq!(
        says(&reply_confirm_decision("id", Err("x".to_string()))),
        (true, "confirm_decision failed: x")
    );
}

fn memory(key: &str, content: &str) -> MemoryRecord {
    MemoryRecord {
        key: key.to_string(),
        content: content.to_string(),
        tags: vec!["a".to_string(), "b".to_string()],
        project: "p".to_string(),
        created_at: at(1_431_648_000),
        agent_id: None,
        token_saved: None,
        token_usage: None,
    }
}

#[test]
fn recall_replies() {
    let none = reply_recall_memory(Ok(memories_recalled(Vec::new(), false)));
    assert_eq!(says(&none), (false, "No memories found for this query (mode: bm25)."));
    let some =
        reply_recall_memory(Ok(memories_recalled(vec![memory("k", "c"), memory("l", "d")], true)));
    assert_eq!(
        says(&some),
        (
            false,
            "Found 2 memories (mode: vector+bm25):\n\n### [p] k\nTags: a, b\nStored: 2015-05-15 00:00 UTC\n\nc\n---\n### [p] l\nTags: a, b\nStored: 2015-05-15 00:00 UTC\n\nd"
        )
    );
    let long = reply_recall_memory(Ok(memories_recalled(vec![memory("k", &"x".repeat(5000))], true)));
    assert!(long.text.ends_with("x\n... [output truncated]"));
    assert_eq!(
        says(&reply_recall_memory(Err("x".to_string()))),
        (true, "recall_memory failed: x")
    );
}

#[test]
fn why_replies() {
    assert_eq!(
        says(&reply_get_why(Ok(Vec::new()))),
        (false, "No governing decisions found for these files.")
    );
    let d = DecisionRecord {
        id: "decisions:1".to_string(),
        project: "p".to_string(),
        decision: "use x".to_string(),
        context: "fast".to_string(),
        governed_files: vec!["a.rs".to_string(), "b.rs".to_string()],
        confidence: 9,
        edit_count: 1,
        created_at: at(0),
        last_confirmed: at(0),
    };
    assert_eq!(
        says(&reply_get_why(Ok(vec![d]))),
        (
            false,
            "Found 1 governing decisions:\n\n### Decision: use x\nID: decisions:1\nConfidence: 0.90\nContext: fast\nGoverned Files: a.rs, b.rs"
        )
    );
    assert_eq!(says(&reply_get_why(Err("x".to_string()))), (true, "get_why failed: x"));
}

#[test]
fn co_change_replies() {
    assert!(!is_co_change(&vec!["a".to_string()]));
    assert!(is_co_change(&vec!["a".to_string(), "b".to_string()]));
    assert_eq!(
        says(&reply_get_co_changes(Ok(Vec::new()))),
        (false, "No co-change records found for this project.")
    );
    let c = CoChangeRecord {
        id: "1".to_string(),
        project: "p".to_string(),
        files: vec!["a".to_string(), "b".to_string()],
        created_at: at(1_431_648_000),
    };
    assert_eq!(
        says(&reply_get_co_changes(Ok(vec![c]))),
        (
            false,
            "Recent file co-change clusters:\n\n- Files modified together at 2015-05-15T00:00:00+00:00:\n  * a\n  * b\n\n"
        )
    );
    assert_eq!(
        says(&reply_get_co_changes(Err("x".to_string()))),
        (true, "Failed to retrieve co-changes: x")
    );
}

#[test]
fn check_replies() {
    let g = GatekeeperResult {
        passed: false,
        target: "production".to_string(),
        checks: vec![
            CheckResult {
                command: "a".to_string(),
                passed: true,
                exit_code: Some(0),
                output: " \n".to_string(),
            },
            CheckResult {
                command: "b".to_string(),
                passed: false,
                exit_code: None,
                output: " bad \n".to_string(),
            },
            CheckResult {
                command: "c".to_string(),
                passed: false,
                exit_code: Some(-9),
                output: String::new(),
            },
        ],
    };
    assert_eq!(
        says(&reply_pre_push_check(Ok(g))),
        (
            true,
            "❌ Checks FAILED for target 'production'\n\n✅ `a` (exit 0)\n\n❌ `b`\n```\nbad\n```\n\n❌ `c` (exit -9)"
        )
    );
    let g = GatekeeperResult { passed: true, target: "t".to_string(), checks: Vec::new() };
    assert_eq!(
        says(&reply_pre_push_check(Ok(g))),
        (false, "✅ All checks passed for target 't'\n\n")
    );
    assert_eq!(
        says(&reply_pre_push_check(Err("x".to_string()))),
        (true, "pre_push_check failed: x")
    );
}

fn read_request(mode: &str) -> ReadRequest {
    ReadRequest {
        file_path: "a.rs".to_string(),
        mode: mode.to_string(),
        agent_id: "me".to_string(),
    }
}

fn output(text: &str, saved: usize) -> Result<ReadOutput, String> {
    Ok(ReadOutput { output: text.to_string(), saved_bytes: saved, raw_bytes: text.len() + saved })
}

#[test]
fn reads_are_cached_and_become_baselines() {
    let mut cache = SearchCache::new();
    let q = read_request("full");
    assert!(cached_read(&mut cache, "/p/a.rs", "full").is_none());
    let first = answer_read(&mut cache, &q, "/p/a.rs", output("one\ntwo\n", 9), None);
    match first.body {
        ReadBody::Whole(reply) => assert_eq!(says(&reply), (false, "one\ntwo\n")),
        ReadBody::Diff { .. } => panic!("there is nothing to compare with"),
    }
    assert_eq!(first.savings, Some(Savings { tokens_saved: 2, total_tokens: 4 }));
    let hit = cached_read(&mut cache, "/p/a.rs", "full").unwrap();
    assert_eq!(says(&hit), (false, "one\ntwo\n"));
    assert_eq!(cache.last_sent("me", "/p/a.rs"), Some("one\ntwo\n".to_string()));
    assert_eq!(cache.last_sent("you", "/p/a.rs"), None);
}

#[test]
fn minor_changes_are_sent_as_diffs() {
    let mut cache = SearchCache::new();
    let q = read_request("full");
    let before: String = (0..30).map(|i| format!("line {i}\n")).collect();
    let after = before.replace("line 3\n", "line three\n");
    let a = answer_read(&mut cache, &q, "/p/a.rs", output(&before, 0), None);
    assert!(matches!(a.body, ReadBody::Whole(_)));
    assert_eq!(a.savings, None);
    match answer_read(&mut cache, &q, "/p/a.rs", output(&after, 0), None).body {
        ReadBody::Diff { ratio, diff } => {
            assert_eq!((ratio.changes, ratio.total), (2, 31));
            assert!(diff.contains("-line 3\n+line three\n"));
            let shown = format!("{:.2}", ratio.changes as f32 / ratio.total as f32);
            let reply = reply_diff(&shown, &diff);
            assert!(!reply.is_error);
            assert!(reply.text.starts_with("DIFF SINCE LAST READ (Ratio: 0.06)\n line 0\n"));
            assert!(reply.text.ends_with("\n[Content updated in cache]"));
        }
        ReadBody::Whole(_) => panic!("the change is minor"),
    }
    // The new text is the baseline now, so the same text again is sent whole.
    assert!(matches!(
        answer_read(&mut cache, &q, "/p/a.rs", output(&after, 0), None).body,
        ReadBody::Whole(_)
    ));
    // A large change is sent whole.
    assert!(matches!(
        answer_read(&mut cache, &q, "/p/a.rs", output("other\n", 0), None).body,
        ReadBody::Whole(_)
    ));
}

#[test]
fn long_texts_are_not_compared() {
    let long = "x\n".repeat(250_001);
    let mut other = long.clone();
    other.push_str("y\n");
    assert!(matches!(choose_body(&other, Some(long)), ReadBody::Whole(_)));
    assert!(matches!(choose_body(&"a\n".to_string(), None), ReadBody::Whole(_)));
}

#[test]
fn failed_reads_leave_the_cache() {
    let mut cache = SearchCache::new();
    let q = read_request("full");
    let a = answer_read(&mut cache, &q, "/p/a.rs", Err("gone".to_string()), None);
    match a.body {
        ReadBody::Whole(reply) => assert_eq!(says(&reply), (true, "surgical_read failed: gone")),
        ReadBody::Diff { .. } => panic!("nothing was read"),
    }
    assert!(cached_read(&mut cache, "/p/a.rs", "full").is_none());
}

#[test]
fn skeletons_carry_standards() {
    let mut cache = SearchCache::new();
    let a = answer_read(&mut cache, &read_request("skeleton"), "/p/a.rs", output("tokio", 0), None);
    match a.body {
        ReadBody::Whole(reply) => assert!(reply.text.contains("[REF CARD: Tokio Async]")),
        ReadBody::Diff { .. } => panic!("there is nothing to compare with"),
    }
    let a = answer_read(&mut cache, &read_request("full"), "/p/b.rs", output("tokio", 0), None);
    match a.body {
        ReadBody::Whole(reply) => assert_eq!(reply.text, "tokio"),
        ReadBody::Diff { .. } => panic!("there is nothing to compare with"),
    }
}

#[test]
fn savings_are_described() {
    let n = savings_note(
        &read_request("full"),
        "/p/a.rs",
        Savings { tokens_saved: 12, total_tokens: 40 },
        -5,
        None,
    );
    assert_eq!(n.key, "token_savings_me_/p/a.rs_-5");
    assert_eq!(n.content, "Saved 12 tokens by pruning a.rs");
    assert_eq!(n.project, "klaar_internal");
    assert_eq!(n.tags, vec!["roi".to_string(), "token_savings".to_string()]);
    let n = savings_note(
        &read_request("full"),
        "/p/a.rs",
        Savings { tokens_saved: 1, total_tokens: 2 },
        7,
        Some("/p".to_string()),
    );
    assert_eq!(n.project, "/p");
}

fn hunk() -> Hunk {
    Hunk { line_start: 1, line_end: 1, new_content: "x".to_string() }
}

#[test]
fn patch_requests_are_checked_in_order() {
    let all = || args(vec![("file_path", t("a.rs")), ("agent_id", t("me"))]);
    let refused = |a: Args, h: HunksArg| parse_fast_apply(&a, h).err().unwrap().text;
    assert_eq!(refused(args(vec![]), HunksArg::Missing), "Missing required field: file_path");
    assert_eq!(refused(all(), HunksArg::Missing), "Missing required field: hunks");
    assert_eq!(
        refused(all(), HunksArg::Invalid("not a list".to_string())),
        "Invalid hunks format: not a list"
    );
    assert_eq!(refused(all(), HunksArg::Given(Vec::new())), "hunks must be non-empty");
    assert_eq!(
        refused(args(vec![("file_path", t("a.rs"))]), HunksArg::Given(vec![hunk()])),
        "Missing required field: agent_id"
    );
    let q = parse_fast_apply(&all(), HunksArg::Given(vec![hunk()])).ok().unwrap();
    assert_eq!((q.file_path.as_str(), q.agent_id.as_str(), q.hunks.len()), ("a.rs", "me", 1));
}

fn apply_request() -> ApplyRequest {
    ApplyRequest {
        file_path: "a.rs".to_string(),
        hunks: vec![hunk()],
        agent_id: "me".to_string(),
    }
}

fn lock_by(agent: &str) -> FileLock {
    FileLock {
        file_path: "a.rs".to_string(),
        agent_id: agent.to_string(),
        virtual_branch: "main".to_string(),
        locked_at: at(0),
    }
}

const LOCKED: &str =
    "ResourceLocked: File 'a.rs' is actively locked by agent 'you' on virtual branch 'main'.";

#[test]
fn a_file_locked_by_another_agent_is_not_patched() {
    match after_lock_check(&apply_request(), Ok(Some(lock_by("you")))) {
        ApplyStep::Finish(end) => {
            assert_eq!(says(&end.reply), (true, LOCKED));
            assert!(!end.release && !end.evict && !end.count_edit);
        }
        _ => panic!("the file is locked"),
    }
    assert!(matches!(
        after_lock_check(&apply_request(), Ok(Some(lock_by("me")))),
        ApplyStep::Apply { auto_claimed: false }
    ));
    assert!(matches!(after_lock_check(&apply_request(), Ok(None)), ApplyStep::Claim));
    match after_lock_check(&apply_request(), Err("down".to_string())) {
        ApplyStep::Finish(end) => {
            assert_eq!(says(&end.reply), (true, "Failed to verify locks: down"))
        }
        _ => panic!("the lock is not known"),
    }
}

#[test]
fn a_lock_has_to_be_claimed() {
    assert!(matches!(
        after_claim(&apply_request(), Ok(())),
        ApplyStep::Apply { auto_claimed: true }
    ));
    match after_claim(&apply_request(), Err("taken".to_string())) {
        ApplyStep::Finish(end) => assert_eq!(
            says(&end.reply),
            (
                true,
                "ResourceLocked: Failed to acquire lock for file 'a.rs'. Another agent may have acquired it: taken"
            )
        ),
        _ => panic!("the lock was not claimed"),
    }
}

#[test]
fn a_claimed_lock_is_released_only_after_a_failure() {
    for auto in [false, true] {
        let end = after_apply(&apply_request(), auto, ApplyOutcome::Refused("bad".to_string()));
        assert_eq!(says(&end.reply), (true, "fast_apply failed: bad"));
        assert_eq!((end.release, end.evict, end.count_edit), (auto, false, false));
        let end = after_apply(&apply_request(), auto, ApplyOutcome::Crashed("oops".to_string()));
        assert_eq!(says(&end.reply), (true, "fast_apply thread join failed: oops"));
        assert_eq!(end.release, auto);
    }
    let done = |n| ApplyOutcome::Applied { lines_changed: n, file_path: "a.rs".to_string() };
    let end = after_apply(&apply_request(), false, done(2));
    assert_eq!(says(&end.reply), (false, "Applied 2 line replacement(s) to a.rs"));
    assert_eq!((end.release, end.evict, end.count_edit), (false, true, true));
    let end = after_apply(&apply_request(), true, done(0));
    assert_eq!(
        says(&end.reply),
        (
            false,
            "Applied 0 line replacement(s) to a.rs. NOTE: A write lock was automatically acquired for this file under agent 'me' and remains active. Remember to call unlock_file when you are finished modifying this file."
        )
    );
    assert_eq!((end.release, end.evict, end.count_edit), (false, true, false));
}

#[test]
fn locks_are_claimed_and_released() {
    let q = LockRequest { file_path: "a.rs".to_string(), agent_id: "me".to_string() };
    assert_eq!(says(&lock_decision(&q, Ok(Some(lock_by("you")))).unwrap()), (true, LOCKED));
    assert_eq!(
        says(&lock_decision(&q, Ok(Some(lock_by("me")))).unwrap()),
        (false, "Lock already held by you for file 'a.rs'")
    );
    assert!(lock_decision(&q, Ok(None)).is_none());
    assert_eq!(
        says(&lock_decision(&q, Err("x".to_string())).unwrap()),
        (true, "Failed to verify locks: x")
    );
    assert_eq!(says(&reply_lock(&q, Ok(()))), (false, "Successfully locked file 'a.rs'"));
    assert_eq!(
        says(&reply_lock(&q, Err("x".to_string()))),
        (true, "Failed to acquire lock: x")
    );
    assert_eq!(says(&reply_unlock(&q, Ok(()))), (false, "Successfully unlocked file 'a.rs'"));
    assert_eq!(
        says(&reply_unlock(&q, Err("x".to_string()))),
        (true, "Failed to unlock file: x")
    );
}

#[test]
fn branches_are_named() {
    assert_eq!(current_branch(None, None), "unknown");
    assert_eq!(current_branch(Some("main\n"), None), "main");
    assert_eq!(current_branch(Some("HEAD\n"), Some("abc123\n")), "abc123");
    assert_eq!(current_branch(Some("HEAD\n"), None), "HEAD");
    assert!(needs_commit(Some(" HEAD\n")));
    assert!(!needs_commit(Some("main")));
    assert!(!needs_commit(None));
}

#[test]
fn calls_name_a_path_to_watch() {
    assert_eq!(
        path_to_watch(&args(vec![("file_path", t("f")), ("project_path", t("p"))])),
        Some("p".to_string())
    );
    assert_eq!(path_to_watch(&args(vec![("file_path", t("f"))])), Some("f".to_string()));
    assert_eq!(path_to_watch(&args(vec![("query", t("f"))])), None);
    assert_eq!(resolved_or_given("a", &Ok("/p/a".to_string())), "/p/a");
    assert_eq!(resolved_or_given("a", &Err("x".to_string())), "a");
}

#[test]
fn searches_are_cached_under_their_project() {
    let mut cache = SearchCache::new();
    let q = parse_grep(&args(vec![
        ("query", t("q")),
        ("project_path", t("p")),
        ("include_glob", t("*.rs")),
    ]))
    .ok()
    .unwrap();
    assert!(q.case_insensitive);
    assert_eq!(q.cache_key("/p"), "search:/p:q:true:*.rs");
    assert!(cached_grep(&mut cache, &q, "/p").is_none());
    let r = answer_grep(&mut cache, &q, "/p", Ok("found".to_string()));
    assert_eq!(says(&r), (false, "found"));
    assert_eq!(says(&cached_grep(&mut cache, &q, "/p").unwrap()), (false, "found"));
    cache.invalidate_path("/p/src/a.rs");
    assert!(cached_grep(&mut cache, &q, "/p").is_none());
    let r = answer_grep(&mut cache, &q, "/p", Err("bad".to_string()));
    assert_eq!(says(&r), (true, "Search failed: bad"));
    assert!(cached_grep(&mut cache, &q, "/p").is_none());
    let exact = parse_grep(&args(vec![
        ("query", t("q")),
        ("project_path", t("p")),
        ("case_insensitive", ArgValue::Flag(false)),
    ]))
    .ok()
    .unwrap();
    assert!(!exact.case_insensitive && exact.include_glob.is_none());
}

#[test]
fn listing_requests_and_replies() {
    let q = parse_ls(&args(vec![("project_path", t("p")), ("max_depth", ArgValue::Number(3))]))
        .ok()
        .unwrap();
    assert_eq!((q.project_path.as_str(), q.max_depth), ("p", Some(3)));
    assert_eq!(parse_ls(&args(vec![("project_path", t("p"))])).ok().unwrap().max_depth, None);
    assert!(parse_ls(&args(vec![])).is_err());
    assert_eq!(says(&reply_ls(Ok("tree".to_string()))), (false, "tree"));
    assert_eq!(says(&reply_ls(Err("x".to_string()))), (true, "Listing failed: x"));
}

#[test]
fn symbol_replies() {
    let mut index = ProjectIndex::new();
    index.add_symbols(
        "a.rs",
        &vec![Symbol { name: "f".to_string(), line: 3, kind: "function_item".to_string() }],
    );
    assert_eq!(
        says(&reply_find_symbol(&index, "f")),
        (false, "Found 1 matches for `f`:\n  function_item → a.rs:L3\n")
    );
    assert_eq!(
        says(&reply_find_symbol(&index, "g")),
        (false, "Symbol `g` not found in project.")
    );
}

#[test]
fn answers_go_by_what_was_sent_before() {
    let before: String = (0..30).map(|i| format!("line {i}\n")).collect();
    let after = before.replace("line 3\n", "line three\n");
    let a = answer_content(&after, 8, 40, Some(before));
    assert_eq!(a.savings, Some(Savings { tokens_saved: 2, total_tokens: 10 }));
    assert!(matches!(a.body, ReadBody::Diff { .. }));
    let a = answer_content(&after, 0, 40, None);
    assert_eq!(a.savings, None);
    assert!(matches!(a.body, ReadBody::Whole(_)));
    assert!(matches!(answer_content(&after, 0, 40, Some(after.clone())).body, ReadBody::Whole(_)));
}

#[test]
fn only_skeletons_are_shown_with_standards() {
    let q = read_request("skeleton");
    let shown = shown_content(&q, "tokio".to_string(), None);
    assert!(shown.contains("[REF CARD: Tokio Async]"));
    assert_eq!(shown_content(&read_request("full"), "tokio".to_string(), None), "tokio");
}
