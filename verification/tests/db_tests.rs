use klaar::db::{
    active_lock, confirm_decision, find_duplicates, fuse_results, increment_file_edits, lock_expired, needs_deduplication, retention_cutoff,
    stats_query, DecisionRecord, FileLock, MemoryRecord, Timestamp,
};

fn at(secs: i64, nanos: u32) -> Timestamp {
    Timestamp::new(secs, nanos).expect("the time has a date")
}

fn record(key: &str, content: &str) -> MemoryRecord {
    MemoryRecord {
        key: key.to_string(),
        content: content.to_string(),
        tags: Vec::new(),
        project: "test_hybrid".to_string(),
        created_at: at(0, 0),
        agent_id: None,
        token_saved: None,
        token_usage: None,
    }
}

fn keys(rs: &[MemoryRecord]) -> Vec<String> {
    rs.iter().map(|r| r.key.clone()).collect()
}

fn list(ks: &[&str]) -> Vec<MemoryRecord> {
    ks.iter().map(|k| record(k, "x")).collect()
}

#[test]
fn test_hybrid_search_rrf() {
    let key1 = "rec1".to_string();
    let key2 = "rec2".to_string();
    let lexical =
        vec![record("rec1", "SurrealDB native search is awesome with Reciprocal Rank Fusion")];
    let vector = vec![record("rec2", "Some random content here")];
    let results = fuse_results(vector, lexical, 2);
    // Ensure both records were returned (fused)
    assert_eq!(results.len(), 2);
    let keys: Vec<String> = results.iter().map(|r| r.key.clone()).collect();
    assert!(keys.contains(&key1));
    assert!(keys.contains(&key2));
}

#[test]
fn records_in_both_lists_rank_first() {
    let fused = fuse_results(list(&["a", "b", "c"]), list(&["c", "d"]), 10);
    // c has 1/62 + 1/60, a has 1/60, and b and d have 1/61.
    assert_eq!(keys(&fused), vec!["c", "a", "b", "d"]);
    let fused = fuse_results(list(&["a", "b", "c"]), list(&["c", "d"]), 2);
    assert_eq!(keys(&fused), vec!["c", "a"]);
    assert!(fuse_results(list(&["a"]), list(&["b"]), 0).is_empty());
}

#[test]
fn equal_scores_keep_the_first_list_in_front() {
    let fused = fuse_results(list(&["a", "b"]), list(&["x", "y"]), 10);
    assert_eq!(keys(&fused), vec!["a", "x", "b", "y"]);
}

#[test]
fn the_first_record_of_a_key_is_kept() {
    let fused = fuse_results(vec![record("k", "vector")], vec![record("k", "words")], 10);
    assert_eq!(fused.len(), 1);
    assert_eq!(fused[0].content, "vector");
}

#[test]
fn fusion_agrees_with_floating_point_scores() {
    let a: Vec<String> = (0..20).map(|i| format!("k{}", (i * 7) % 31)).collect();
    let b: Vec<String> = (0..20).map(|i| format!("k{}", (i * 11 + 3) % 29)).collect();
    let first: Vec<MemoryRecord> = a.iter().map(|k| record(k, "x")).collect();
    let second: Vec<MemoryRecord> = b.iter().map(|k| record(k, "x")).collect();
    let fused = keys(&fuse_results(first, second, 100));
    let score = |k: &String| -> f64 {
        let part = |l: &Vec<String>| -> f64 {
            l.iter().enumerate().filter(|(_, x)| *x == k).map(|(r, _)| 1.0 / (60.0 + r as f64)).sum()
        };
        part(&a) + part(&b)
    };
    for pair in fused.windows(2) {
        assert!(score(&pair[0]) >= score(&pair[1]) - 1e-15);
    }
    let mut all: Vec<String> = a.iter().chain(b.iter()).cloned().collect();
    all.sort();
    all.dedup();
    let mut got = fused.clone();
    got.sort();
    assert_eq!(got, all);
}

#[test]
fn only_twenty_candidates_of_a_list_count() {
    let many: Vec<MemoryRecord> = (0..30).map(|i| record(&format!("k{i}"), "x")).collect();
    assert_eq!(fuse_results(many, Vec::new(), 100).len(), 20);
}

#[test]
fn times_have_calendar_dates() {
    assert!(Timestamp::new(0, 999_999_999).is_some());
    assert!(Timestamp::new(0, 1_000_000_000).is_none());
    assert!(Timestamp::new(59, 1_999_999_999).is_some());
    assert!(Timestamp::new(-1, 1_500_000_000).is_some());
    assert!(Timestamp::new(-2, 1_500_000_000).is_none());
    assert!(Timestamp::new(i64::MAX, 0).is_none());
    for (secs, nanos) in [
        (-8_334_601_228_800, 0),
        (-8_334_601_228_801, 0),
        (8_210_266_876_799, 999_999_999),
        (8_210_266_876_800, 0),
        (59, 1_999_999_999),
        (60, 1_000_000_000),
        (-61, 1_000_000_000),
        (i64::MIN, 0),
    ] {
        assert_eq!(
            Timestamp::new(secs, nanos).is_some(),
            chrono::DateTime::from_timestamp(secs, nanos).is_some(),
            "{secs} {nanos}"
        );
    }
}

#[test]
fn times_are_rendered() {
    let t = at(1_431_648_000, 0);
    assert_eq!(t.minute_text(), "2015-05-15 00:00 UTC");
    assert_eq!(t.exact_text(), "2015-05-15T00:00:00+00:00");
    assert_eq!(at(1_431_648_061, 500_000_000).minute_text(), "2015-05-15 00:01 UTC");
    assert_eq!(at(1_431_648_061, 500_000_000).exact_text(), "2015-05-15T00:01:01.500+00:00");
}

#[test]
fn times_are_ordered() {
    assert!(at(1, 0).before(&at(2, 0)));
    assert!(at(1, 5).before(&at(1, 6)));
    assert!(!at(1, 6).before(&at(1, 6)));
    assert!(!at(2, 0).before(&at(1, 6)));
}

fn lock(secs: i64, nanos: u32) -> FileLock {
    FileLock {
        file_path: "/tmp/locked_file.rs".to_string(),
        agent_id: "agent-1".to_string(),
        virtual_branch: "feature-1".to_string(),
        locked_at: at(secs, nanos),
    }
}

#[test]
fn locks_expire_after_half_an_hour() {
    let now = at(10_000, 500);
    assert!(!lock_expired(&lock(10_000 - 1800, 500), now));
    assert!(lock_expired(&lock(10_000 - 1800, 499), now));
    assert!(lock_expired(&lock(10_000 - 1801, 999), now));
    assert!(!lock_expired(&lock(10_000, 0), now));
    assert!(active_lock(Some(lock(9_000, 0)), now).is_some());
    assert!(active_lock(Some(lock(8_000, 0)), now).is_none());
    assert!(active_lock(None, now).is_none());
}

#[test]
fn records_are_kept_for_thirty_days() {
    let cutoff = retention_cutoff(at(3_000_000, 7));
    assert_eq!((cutoff.secs, cutoff.nanos), (3_000_000 - 30 * 24 * 3600, 7));
}

#[test]
fn the_statistics_query_has_its_filters() {
    let base = "SELECT agent_id, project, math::sum(token_saved) AS total_saved, math::sum(token_usage) AS total_usage FROM memory";
    assert_eq!(stats_query(false, false), format!("{base} GROUP BY agent_id, project"));
    assert_eq!(
        stats_query(true, false),
        format!("{base} WHERE created_at >= $time_limit GROUP BY agent_id, project")
    );
    assert_eq!(
        stats_query(false, true),
        format!("{base} WHERE project = $proj GROUP BY agent_id, project")
    );
    assert_eq!(
        stats_query(true, true),
        format!("{base} WHERE created_at >= $time_limit AND project = $proj GROUP BY agent_id, project")
    );
}

fn decision(id: &str, project: &str, text: &str, confirmed: i64) -> DecisionRecord {
    DecisionRecord::new(
        id.to_string(),
        project.to_string(),
        text.to_string(),
        String::new(),
        Vec::new(),
        at(confirmed, 0),
    )
}

#[test]
fn test_decision_intelligence() {
    let project = "test_project";
    let decision_text = "Use SurrealDB memory layer";
    let context_text = "Zero init cost and persistent memories";
    let files = vec!["src/db/mod.rs".to_string(), "src/main.rs".to_string()];

    // 1. Make the decision
    let mut dec = DecisionRecord::new(
        "decisions:1".to_string(),
        project.to_string(),
        decision_text.to_string(),
        context_text.to_string(),
        files.clone(),
        at(10, 0),
    );
    assert_eq!(dec.decision, decision_text);
    assert_eq!(dec.governed_files, files);
    assert_eq!(dec.confidence, 10);
    assert_eq!(dec.edit_count, 0);

    // 2. Edits degrade confidence
    dec.record_edit();
    assert_eq!(dec.edit_count, 1);
    assert_eq!(dec.confidence, 9);
    assert_eq!(dec.confidence_text(), "0.90");

    // 3. Increment multiple times to verify floor of 0.1
    for _ in 0..15 {
        dec.record_edit();
    }
    assert!(dec.edit_count >= 10);
    assert_eq!(dec.confidence, 1);
    assert_eq!(dec.confidence_text(), "0.10");

    // 4. The same decision again keeps its confidence
    dec.record_again("still so".to_string(), vec!["src/main.rs".to_string()], at(20, 0));
    assert_eq!((dec.confidence, dec.edit_count, dec.context.as_str()), (1, 16, "still so"));
    assert_eq!(dec.last_confirmed, at(20, 0));

    // 5. Confirm decision to restore confidence to 1.0
    dec.confirm(at(30, 0));
    assert_eq!(dec.confidence, 10);
    assert_eq!(dec.edit_count, 0);
    assert_eq!(dec.confidence_text(), "1.00");
    assert_eq!((dec.created_at, dec.last_confirmed), (at(10, 0), at(30, 0)));
}

#[test]
fn confidence_is_shown_as_the_decimal_fraction() {
    let mut dec = decision("1", "p", "x", 0);
    for edits in 0..12 {
        let confidence = f64::max(0.1, 1.0 - edits as f64 * 0.1);
        assert_eq!(dec.confidence_text(), format!("{:.2}", confidence));
        dec.record_edit();
    }
}

#[test]
fn duplicate_decisions_leave_the_newest() {
    let ds = vec![
        decision("1", "p", "x", 10),
        decision("2", "p", "x", 30),
        decision("3", "q", "x", 5),
        decision("4", "p", "x", 30),
        decision("5", "p", "y", 1),
    ];
    assert_eq!(find_duplicates(&ds), vec!["1".to_string(), "4".to_string()]);
    assert!(find_duplicates(&Vec::new()).is_empty());
    assert!(needs_deduplication(0) && needs_deduplication(1));
    assert!(!needs_deduplication(2));
}

fn decision_on(id: &str, project: &str, files: &[&str]) -> DecisionRecord {
    DecisionRecord::new(
        id.to_string(),
        project.to_string(),
        "use one store".to_string(),
        "it is small".to_string(),
        files.iter().map(|f| f.to_string()).collect(),
        at(10, 0),
    )
}

fn standing(ds: &[DecisionRecord]) -> Vec<(u8, usize)> {
    ds.iter().map(|d| (d.confidence, d.edit_count)).collect()
}

#[test]
fn edits_count_against_the_decisions_that_govern_the_file() {
    let mut ds = vec![
        decision_on("d:1", "p", &["a.rs", "b.rs"]),
        decision_on("d:2", "p", &["b.rs"]),
        decision_on("d:3", "q", &["a.rs"]),
    ];
    increment_file_edits(&mut ds, "a.rs");
    assert_eq!(standing(&ds), vec![(9, 1), (10, 0), (9, 1)]);
    increment_file_edits(&mut ds, "c.rs");
    assert_eq!(standing(&ds), vec![(9, 1), (10, 0), (9, 1)]);
    for _ in 0..12 {
        increment_file_edits(&mut ds, "b.rs");
    }
    assert_eq!(standing(&ds), vec![(1, 13), (1, 12), (9, 1)]);
}

#[test]
fn confirming_undoes_edits() {
    let mut ds =
        vec![decision_on("d:1", "p", &["a.rs"]), decision_on("d:2", "p", &["a.rs"])];
    for _ in 0..5 {
        increment_file_edits(&mut ds, "a.rs");
    }
    // A decision of another project stays.
    confirm_decision(&mut ds, "d:1", "q", at(20, 0));
    assert_eq!(standing(&ds), vec![(5, 5), (5, 5)]);
    confirm_decision(&mut ds, "d:1", "p", at(20, 0));
    assert_eq!(standing(&ds), vec![(10, 0), (5, 5)]);
    assert_eq!(ds[0].last_confirmed, at(20, 0));
    assert_eq!(ds[1].last_confirmed, at(10, 0));
    assert_eq!(ds[0].created_at, at(10, 0));
}
