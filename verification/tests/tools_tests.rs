use klaar::config::{ProjectConfig, ProjectMeta, Target};
use klaar::parser::{Lang, Symbol};
use klaar::tools::gatekeeper::{
    check_result, combine_output, plan_check, CheckOutcome, CheckPlan, CheckResult, CheckRun,
};
use klaar::tools::index::{indexed_language, is_skipped_dir, ProjectIndex};
use klaar::tools::ls::{effective_depth, list_dir, skips_dir, ListEntry};
use klaar::tools::read::surgical_read;
use klaar::tools::standards::{
    inject_standards, standards_file, LanguageStandards, ModifiedAt, ProjectStandards, StandardsCache,
};

fn project() -> ProjectConfig {
    ProjectConfig {
        project: ProjectMeta { name: "p".to_string(), language: "rust".to_string() },
        targets: vec![
            Target {
                name: "production".to_string(),
                pre_push_checks: vec!["cargo check".to_string(), "cargo test".to_string()],
                deploy_method: None,
                deploy_command: None,
            },
            Target {
                name: "staging".to_string(),
                pre_push_checks: Vec::new(),
                deploy_method: None,
                deploy_command: None,
            },
        ],
    }
}

fn outcome(command: &str, passed: bool) -> CheckResult {
    CheckResult { command: command.to_string(), passed, exit_code: Some(0), output: String::new() }
}

#[test]
fn checks_run_in_order_until_one_fails() {
    let mut run = CheckRun::start(&project(), "production", true).ok().expect("the target exists");
    assert_eq!(run.next().cloned(), Some("cargo check".to_string()));
    run.record(outcome("cargo check", true));
    assert_eq!(run.next().cloned(), Some("cargo test".to_string()));
    run.record(outcome("cargo test", false));
    assert_eq!(run.next(), None);
    let end = run.finish();
    assert!(!end.passed);
    assert_eq!(end.target, "production");
    let commands: Vec<&str> = end.checks.iter().map(|c| c.command.as_str()).collect();
    assert_eq!(commands, vec!["cargo check", "cargo test"]);
}

#[test]
fn a_run_passes_when_every_check_passes() {
    let mut run = CheckRun::start(&project(), "staging", true).ok().unwrap();
    assert_eq!(run.next().cloned(), Some("but validate".to_string()));
    run.record(outcome("but validate", true));
    assert_eq!(run.next(), None);
    assert!(run.finish().passed);
    let empty = CheckRun::start(&project(), "staging", false).ok().unwrap();
    assert_eq!(empty.next(), None);
    assert!(empty.finish().passed);
}

#[test]
fn unknown_targets_are_refused() {
    assert_eq!(
        CheckRun::start(&project(), "qa", false).err(),
        Some("Target 'qa' not found in .klaar/targets.toml".to_string())
    );
}

#[test]
fn commands_are_split_at_white_space() {
    match plan_check("  cargo  test --workspace ") {
        CheckPlan::Run { program, args } => {
            assert_eq!(program, "cargo");
            assert_eq!(args, vec!["test".to_string(), "--workspace".to_string()]);
        }
        CheckPlan::Empty => panic!("there is a command"),
    }
    assert!(matches!(plan_check(" \t"), CheckPlan::Empty));
}

#[test]
fn every_outcome_has_its_result() {
    let r = check_result("", CheckOutcome::EmptyCommand);
    assert_eq!((r.passed, r.exit_code, r.output.as_str()), (false, None, "Empty command"));
    let r = check_result("x", CheckOutcome::SpawnFailed { cause: "gone".to_string() });
    assert_eq!((r.passed, r.output.as_str()), (false, "Failed to spawn process: gone"));
    let r = check_result("x", CheckOutcome::NoStdout);
    assert_eq!((r.passed, r.output.as_str()), (false, "Failed to pipe process stdout"));
    let r = check_result("x", CheckOutcome::NoStderr);
    assert_eq!((r.passed, r.output.as_str()), (false, "Failed to pipe process stderr"));
    let r = check_result("x", CheckOutcome::TimedOut);
    assert_eq!((r.passed, r.output.as_str()), (false, "Timed out after 120s"));
    let r = check_result(
        "x",
        CheckOutcome::Finished {
            success: true,
            exit_code: Some(0),
            stdout: b"out \xff".to_vec(),
            stderr: "err \u{e4}".as_bytes().to_vec(),
        },
    );
    assert!(r.passed);
    assert_eq!(r.exit_code, Some(0));
    assert_eq!(r.output, "out \u{fffd}\n---stderr---\nerr \u{e4}");
    assert_eq!(r.command, "x");
}

#[test]
fn check_output_is_combined_and_cut() {
    assert_eq!(combine_output("a".to_string(), String::new()), "a");
    assert_eq!(combine_output(String::new(), "b".to_string()), "b");
    assert_eq!(combine_output("a".to_string(), "b".to_string()), "a\n---stderr---\nb");
    let long = combine_output("x".repeat(600_000), String::new());
    assert_eq!(long.len(), 524_288 + 23);
    assert!(long.ends_with("x\n... [output truncated]"));
}

#[test]
fn symbols_are_indexed_by_name() {
    let mut index = ProjectIndex::new();
    let symbols = vec![
        Symbol { name: "f".to_string(), line: 3, kind: "function_item".to_string() },
        Symbol { name: "g".to_string(), line: 5, kind: "function_item".to_string() },
        Symbol { name: "f".to_string(), line: 9, kind: "struct_item".to_string() },
    ];
    index.add_symbols("a.rs", &symbols);
    index.add_symbols("b.rs", &symbols[..1].iter().map(|s| Symbol {
        name: s.name.clone(),
        line: s.line,
        kind: s.kind.clone(),
    }).collect());
    let f: Vec<(String, u64)> =
        index.find("f").unwrap().iter().map(|l| (l.file.clone(), l.line)).collect();
    assert_eq!(f, vec![("a.rs".to_string(), 3), ("a.rs".to_string(), 9), ("b.rs".to_string(), 3)]);
    assert_eq!(index.find("g").unwrap().len(), 1);
    assert!(index.find("h").is_none());
    assert!(ProjectIndex::default().find("f").is_none());
}

#[test]
fn files_are_indexed_below_their_root() {
    let mut index = ProjectIndex::new();
    index.add_file("/p", "/p/src/a.py", "def f():\n    pass\n", Lang::Python);
    let f = index.find("f").unwrap();
    assert_eq!((f[0].file.as_str(), f[0].line, f[0].kind.as_str()), ("src/a.py", 1, "function_definition"));
}

#[test]
fn index_candidates_go_by_language_and_size() {
    assert_eq!(indexed_language("a.rs", Some(1_048_576)), Some(Lang::Rust));
    assert_eq!(indexed_language("a.rs", Some(1_048_577)), None);
    assert_eq!(indexed_language("a.rs", None), Some(Lang::Rust));
    assert_eq!(indexed_language("a.txt", None), None);
    for d in ["node_modules", "target", ".git", ".next", "dist", "__pycache__", ".turbo", "build"] {
        assert!(is_skipped_dir(d) && skips_dir(d));
    }
    assert!(!is_skipped_dir("vendor") && skips_dir("vendor"));
    assert!(!is_skipped_dir("src") && !skips_dir("src"));
}

#[test]
fn listings_show_the_tree() {
    let entries = vec![
        ListEntry { depth: 1, name: "src".to_string(), is_dir: true },
        ListEntry { depth: 2, name: "lib.rs".to_string(), is_dir: false },
    ];
    assert_eq!(
        list_dir("/p", true, &entries),
        Ok("📂 /p\n  📁/ src\n    📄 lib.rs\n".to_string())
    );
    assert_eq!(
        list_dir("/q", false, &Vec::new()),
        Err("Directory does not exist: /q".to_string())
    );
    let many: Vec<ListEntry> =
        (0..2000).map(|i| ListEntry { depth: 1, name: format!("f{i}"), is_dir: false }).collect();
    let out = list_dir("/p", true, &many).unwrap();
    assert!(out.len() <= 10_023);
    assert!(out.ends_with("\n... [output truncated]"));
}

#[test]
fn listing_depth_has_a_default_and_a_limit() {
    assert_eq!(effective_depth(None), 2);
    assert_eq!(effective_depth(Some(0)), 0);
    assert_eq!(effective_depth(Some(20)), 20);
    assert_eq!(effective_depth(Some(21)), 20);
}

#[test]
fn reads_go_by_mode() {
    let source = "// c\nfn f() {\n    1\n}\n";
    let full = surgical_read("a.rs", "/p/a.rs", "full", source).ok().unwrap();
    assert_eq!((full.output.as_str(), full.saved_bytes, full.raw_bytes), (source, 0, source.len()));
    let compressed = surgical_read("a.rs", "/p/a.rs", "compressed", source).ok().unwrap();
    assert_eq!(compressed.output, "\nfn f() {\n    1\n}\n");
    assert_eq!(compressed.saved_bytes, source.len() - compressed.output.len());
    let skeleton = surgical_read("a.rs", "/p/a.rs", "skeleton", source).ok().unwrap();
    assert_eq!(
        skeleton.output,
        "// skeleton of a.rs (4 lines total)\n\n// L2\nfn f() {\n\n"
    );
    // The headline is longer than what the skeleton saves here.
    assert_eq!(skeleton.saved_bytes, 0);
}

#[test]
fn large_files_save_bytes_as_skeletons() {
    let body: String = (0..100).map(|i| format!("    let x{i} = {i};\n")).collect();
    let source = format!("fn f() {{\n{body}}}\n");
    let read = surgical_read("a.rs", "/p/a.rs", "skeleton", &source).ok().unwrap();
    assert_eq!(read.saved_bytes, source.len() - read.output.len());
    assert_eq!(read.raw_bytes, source.len());
}

#[test]
fn reads_without_a_grammar_give_the_text() {
    let read = surgical_read("a.txt", "/p/a.txt", "skeleton", "text").ok().unwrap();
    assert_eq!(
        read.output,
        "// No tree-sitter grammar for this file type; returning full content.\ntext"
    );
    assert_eq!(read.saved_bytes, 0);
    let read = surgical_read("a.txt", "/p/a.txt", "compressed", "text").ok().unwrap();
    assert_eq!(read.output, "text");
    assert_eq!(
        surgical_read("a.txt", "/p/a.txt", "x", "text").err(),
        Some("Unknown mode 'x'. Use 'skeleton', 'compressed', or 'full'.".to_string())
    );
}

fn standards() -> ProjectStandards {
    ProjectStandards {
        global: Some(vec!["be kind".to_string()]),
        languages: Some(vec![LanguageStandards {
            extension: "rs".to_string(),
            rules: vec!["use clippy".to_string(), "no unwrap".to_string()],
        }]),
    }
}

#[test]
fn standards_are_injected_for_the_language() {
    let mut content = "fn f() {}".to_string();
    inject_standards(&mut content, "a.rs", Some(&standards()));
    assert_eq!(
        content,
        "fn f() {}\n\n--- [klaar standards & best practices] ---\n- be kind\n- use clippy\n- no unwrap\n------------------------------------------\n"
    );
    let mut content = "x = 1".to_string();
    inject_standards(&mut content, "a.py", Some(&standards()));
    assert!(content.contains("- be kind\n") && !content.contains("clippy"));
}

#[test]
fn nothing_is_injected_without_standards() {
    let mut content = "fn f() {}".to_string();
    inject_standards(&mut content, "a.rs", None);
    assert_eq!(content, "fn f() {}");
    inject_standards(&mut content, "a.rs", Some(&ProjectStandards::default()));
    assert_eq!(content, "fn f() {}");
}

#[test]
fn reference_cards_go_by_content() {
    let mut content = "use surrealdb; use tokio;".to_string();
    inject_standards(&mut content, "a.rs", None);
    let card = "\n[REF CARD: SurrealDB Parameterized Queries]\n- Use `$var` placeholders: `db.query(\"SELECT * FROM user WHERE id = $id\").bind((\"id\", id_val))`\n- NEVER use string interpolation for queries.\n\n[REF CARD: Tokio Async]\n- Prefer `?` over `unwrap()` in async tasks.\n- Use `tokio::select!` for cancellation-aware loops.\n";
    assert_eq!(
        content,
        format!("use surrealdb; use tokio;\n\n--- [klaar standards & best practices] ---\n{card}------------------------------------------\n")
    );
    let mut content = "tokio".to_string();
    inject_standards(&mut content, "a.py", None);
    assert_eq!(content, "tokio");
    let mut content = "x".to_string();
    inject_standards(&mut content, "src/surreal/a.py", None);
    assert!(content.contains("SurrealDB"));
}

#[test]
fn standards_are_cached_by_time() {
    let mut cache = StandardsCache::new();
    let t1 = Some(ModifiedAt { secs: 1, nanos: 0 });
    let t2 = Some(ModifiedAt { secs: 1, nanos: 1 });
    assert!(cache.lookup("/p", t1).is_none());
    cache.store("/p", standards(), t1);
    cache.store("/q", ProjectStandards::default(), None);
    assert!(cache.lookup("/p", t1).unwrap().global.is_some());
    assert!(cache.lookup("/p", t2).is_none());
    assert!(cache.lookup("/q", None).unwrap().global.is_none());
    cache.store("/p", ProjectStandards::default(), t2);
    assert!(cache.lookup("/p", t1).is_none());
    assert!(cache.lookup("/p", t2).unwrap().global.is_none());
    assert!(cache.lookup("/q", None).is_some());
    assert_eq!(standards_file("/p"), "/p/.klaar/standards.toml");
}
