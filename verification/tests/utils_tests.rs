use klaar::utils;

fn reference_truncate(s: &mut String, max_bytes: usize) {
    if s.len() > max_bytes {
        let mut target = max_bytes;
        while target > 0 && !s.is_char_boundary(target) {
            target -= 1;
        }
        s.truncate(target);
        s.push_str("\n... [output truncated]");
    }
}

#[test]
fn truncation_never_splits_a_character() {
    for s in ["", "abc", "äöü", "a€b", "😀😀", "mixed ä€😀 text"] {
        for max in 0..(s.len() + 2) {
            let mut got = s.to_string();
            let mut expected = s.to_string();
            utils::safe_truncate(&mut got, max);
            reference_truncate(&mut expected, max);
            assert_eq!(got, expected, "{s:?} to {max}");
            assert!(got.len() <= max.max(s.len()).max(max + 23));
        }
    }
    let mut euro = "a€b".to_string();
    utils::safe_truncate(&mut euro, 3);
    assert_eq!(euro, "a\n... [output truncated]");
}

#[test]
fn diff_of_equal_texts_has_no_changes() {
    let r = utils::compute_diff_ratio("a\nb\nc\n", "a\nb\nc\n");
    assert_eq!((r.changes, r.total), (0, 3));
    assert!(!r.minor());
    let none = utils::compute_diff_ratio("", "");
    assert_eq!((none.changes, none.total), (0, 0));
}

#[test]
fn diff_lists_deletions_and_insertions() {
    let s = utils::compute_diff_stats("a\nb\nc\n", "a\nx\nc\n");
    assert_eq!(s.diff, " a\n-b\n+x\n c\n");
    assert_eq!((s.ratio.changes, s.ratio.total), (2, 4));
    assert!(!s.ratio.minor());
}

#[test]
fn diff_adds_a_missing_newline() {
    let s = utils::compute_diff_stats("a", "b");
    assert_eq!(s.diff, "-a\n+b\n");
}

#[test]
fn small_changes_are_minor() {
    let old: String = (0..20).map(|i| format!("line {i}\n")).collect();
    let new = old.replace("line 7\n", "line seven\n");
    let r = utils::compute_diff_ratio(&old, &new);
    assert_eq!((r.changes, r.total), (2, 21));
    assert!(r.minor());
    let ratio = r.changes as f32 / r.total as f32;
    assert!(ratio > 0.0 && ratio < 0.20);
}

#[test]
fn a_fifth_is_not_minor() {
    let r = utils::DiffRatio { changes: 2, total: 10 };
    assert!(!r.minor());
    let r = utils::DiffRatio { changes: 2, total: 11 };
    assert!(r.minor());
    let r = utils::DiffRatio { changes: 0, total: 11 };
    assert!(!r.minor());
}

#[test]
fn summaries_count_what_they_are_given() {
    let changes = vec![
        utils::LineChange { tag: utils::LineTag::Equal, line: "a\n".to_string() },
        utils::LineChange { tag: utils::LineTag::Insert, line: "b\n".to_string() },
        utils::LineChange { tag: utils::LineTag::Delete, line: "c\n".to_string() },
    ];
    let s = utils::summarize_changes(&changes);
    assert_eq!(s.diff, " a\n+b\n-c\n");
    assert_eq!((s.ratio.changes, s.ratio.total), (2, 3));
}

#[test]
fn project_root_is_the_nearest_marked_ancestor() {
    let path = "/home/me/project/src/lib.rs";
    // The path itself, src, project, me, home and the root.
    let marked = vec![false, false, true, false, true, false];
    assert_eq!(
        utils::find_project_root(path, &marked),
        Some("/home/me/project".to_string())
    );
    assert_eq!(utils::find_project_root(path, &vec![false; 6]), None);
    assert_eq!(utils::find_project_root(path, &Vec::new()), None);
    assert_eq!(
        utils::project_markers("/p"),
        vec!["/p/.git".to_string(), "/p/.klaar".to_string(), "/p/Cargo.toml".to_string()]
    );
}

fn read_back(diff: &str, mark: char) -> String {
    diff.split_inclusive('\n')
        .filter(|l| l.starts_with(' ') || l.starts_with(mark))
        .map(|l| &l[1..])
        .collect()
}

#[test]
fn both_texts_can_be_read_back_from_a_diff() {
    let long: String = (0..150).map(|i| format!("{}\n", i % 7)).collect();
    let shorter = long.replace("3\n4\n", "4\n") + "end\n";
    let pairs = vec![
        ("a\nb\nc\n", "a\nx\nc\n"),
        ("", "a\n"),
        ("a\r\nb\r\n", "b\r\na\r\n"),
        ("one\ntwo\n", ""),
        (long.as_str(), shorter.as_str()),
    ];
    for (old, new) in pairs {
        let s = utils::compute_diff_stats(old, new);
        assert_eq!(read_back(&s.diff, '-'), old);
        assert_eq!(read_back(&s.diff, '+'), new);
        assert!(s.ratio.changes > 0 && s.ratio.changes <= s.ratio.total);
        assert_eq!(utils::compute_diff_ratio(old, new), s.ratio);
    }
    // A newline is put behind a last line without one.
    let s = utils::compute_diff_stats("a\nb", "a\nb\n");
    assert_eq!(read_back(&s.diff, '-'), "a\nb\n");
    assert_eq!(read_back(&s.diff, '+'), "a\nb\n");
    assert_eq!(s.ratio.changes, 2);
}
