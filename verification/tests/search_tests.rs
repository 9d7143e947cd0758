use klaar::tools::search::{
    collect_matches, format_output, is_text_file, parse_rg, rg_arguments, search, searches_file,
    wait_step, GrepMatch, NativeSearch, WaitStep, RG_TIMEOUT_MESSAGE,
};

fn found(file: &str, line: u32, text: &str) -> GrepMatch {
    GrepMatch { file: file.to_string(), line, text: text.to_string() }
}

fn shown(ms: &[GrepMatch]) -> Vec<(String, u32, String)> {
    ms.iter().map(|m| (m.file.clone(), m.line, m.text.clone())).collect()
}

#[test]
fn long_patterns_are_refused() {
    let long = "x".repeat(1025);
    assert_eq!(
        search(&long, Ok(Vec::new())),
        Err("Search pattern is too long (maximum 1024 characters)".to_string())
    );
    let fits = "x".repeat(1024);
    assert_eq!(search(&fits, Ok(Vec::new())), Ok(format!("No matches found for `{fits}`")));
    assert_eq!(search("x", Err("broken".to_string())), Err("broken".to_string()));
}

#[test]
fn reports_group_by_file() {
    let ms = vec![found("a.rs", 1, "one"), found("a.rs", 9, "two"), found("b.rs", 3, "three")];
    assert_eq!(
        format_output(&ms, "p"),
        "── a.rs\n  L1: one\n  L9: two\n\n── b.rs\n  L3: three\n"
    );
    assert_eq!(format_output(&Vec::new(), "p"), "No matches found for `p`");
}

#[test]
fn reports_are_cut_at_the_limit() {
    let ms: Vec<GrepMatch> = (0..60).map(|i| found("a.rs", i + 1, "x")).collect();
    let out = format_output(&ms, "p");
    assert!(out.contains("  L50: x\n"));
    assert!(!out.contains("  L51: x\n"));
    assert!(out.ends_with("\n[truncated — showing 50 of 60+ matches. Refine your query.]"));
    let fifty: Vec<GrepMatch> = (0..50).map(|i| found("a.rs", i + 1, "x")).collect();
    assert!(format_output(&fifty, "p").contains("showing 50 of 50+"));
    let below: Vec<GrepMatch> = (0..49).map(|i| found("a.rs", i + 1, "x")).collect();
    assert!(!format_output(&below, "p").contains("truncated"));
}

#[test]
fn ripgrep_is_called_with_its_arguments() {
    assert_eq!(
        rg_arguments("p", "/r", true, Some("*.rs")),
        vec![
            "--line-number",
            "--no-heading",
            "--color=never",
            "--max-filesize=1M",
            "--ignore-case",
            "--glob",
            "*.rs",
            "p",
            "/r"
        ]
    );
    assert_eq!(rg_arguments("p", "/r", false, None).len(), 6);
}

#[test]
fn ripgrep_output_is_parsed() {
    let out = "src/a.rs:12:   let x: u8 = 1;  \nno match\nb.rs:x:y\nc.rs:+3:z\nd.rs:99999999999:w\n";
    assert_eq!(
        shown(&parse_rg(out)),
        vec![
            ("src/a.rs".to_string(), 12, "let x: u8 = 1;".to_string()),
            ("c.rs".to_string(), 3, "z".to_string()),
        ]
    );
    let many: String = (0..80).map(|i| format!("a.rs:{i}:x\n")).collect();
    assert_eq!(parse_rg(&many).len(), 50);
}

#[test]
fn native_search_finds_matching_lines() {
    let mut s = NativeSearch::start("^\\s*fn \\w+", false).ok().expect("the pattern compiles");
    assert!(s.feed("a.rs", "fn one() {}\n  let x = 1;\n  fn two() {}\nFN three\n").is_ok());
    assert_eq!(
        shown(&s.found),
        vec![
            ("a.rs".to_string(), 1, "fn one() {}".to_string()),
            ("a.rs".to_string(), 3, "fn two() {}".to_string()),
        ]
    );
    assert!(!s.is_full());
}

#[test]
fn native_search_can_ignore_case() {
    let mut s = NativeSearch::start("HELLO", true).ok().unwrap();
    assert_eq!(s.pattern, "(?i)HELLO");
    assert!(s.feed("a.txt", "say hello\nbye").is_ok());
    assert_eq!(s.found.len(), 1);
    let mut s = NativeSearch::start("HELLO", false).ok().unwrap();
    assert!(s.feed("a.txt", "say hello\nbye").is_ok());
    assert_eq!(s.found.len(), 0);
}

#[test]
fn native_search_refuses_a_bad_pattern() {
    let e = NativeSearch::start("foo(bar", false).err().expect("the group is not closed");
    assert!(e.contains("unclosed group"), "{e}");
}

#[test]
fn native_search_stops_at_the_limit() {
    let content: String = (0..80).map(|i| format!("x {i}\n")).collect();
    let mut s = NativeSearch::start("x", false).ok().unwrap();
    assert!(s.feed("a.txt", &content).is_ok());
    assert_eq!(s.found.len(), 50);
    assert!(s.is_full());
    assert!(s.feed("b.txt", &content).is_ok());
    assert_eq!(s.found.len(), 50);
}

#[test]
fn matches_are_collected_in_order() {
    let mut ms = vec![found("z", 1, "z")];
    let lines = vec![" a ".to_string(), "b".to_string(), "c".to_string()];
    collect_matches(&mut ms, "f", &lines, &vec![true, false, true]);
    assert_eq!(
        shown(&ms),
        vec![
            ("z".to_string(), 1, "z".to_string()),
            ("f".to_string(), 1, "a".to_string()),
            ("f".to_string(), 3, "c".to_string()),
        ]
    );
}

#[test]
fn files_are_chosen_by_extension_and_size() {
    assert!(is_text_file("a.rs"));
    assert!(is_text_file("dir/a.lock"));
    assert!(!is_text_file("a.png"));
    assert!(!is_text_file("Makefile"));
    assert!(searches_file("a.rs", Some(1_000_000), None));
    assert!(!searches_file("a.rs", Some(1_000_001), None));
    assert!(searches_file("a.rs", None, Some("*.rs")));
    assert!(searches_file("a.rs", None, Some("**/*.rs")));
    assert!(!searches_file("a.rs", None, Some("*.ts")));
    assert!(!searches_file("a.png", None, Some("*.png")));
    assert!(!searches_file("Makefile", None, Some("*.rs")));
}

#[test]
fn ripgrep_is_given_ten_seconds() {
    assert_eq!(wait_step(false, 0), WaitStep::Wait);
    assert_eq!(wait_step(false, 9_999), WaitStep::Wait);
    assert_eq!(wait_step(false, 10_000), WaitStep::GiveUp);
    assert_eq!(wait_step(true, 10_000), WaitStep::Done);
    assert_eq!(RG_TIMEOUT_MESSAGE, "ripgrep search timed out after 10 seconds");
}
