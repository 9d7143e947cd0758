use klaar::tools::apply::{fast_apply, ApplyError, Hunk};

fn hunk(line_start: usize, line_end: usize, new_content: &str) -> Hunk {
    Hunk { line_start, line_end, new_content: new_content.to_string() }
}

const SOURCE: &str = "line 1\nline 2\nline 3\nline 4\nline 5\n";

#[test]
fn test_fast_apply_overlapping_hunks_fail() {
    let hunks = vec![
        Hunk {
            line_start: 2,
            line_end: 4,
            new_content: "replaced lines 2 to 4".to_string(),
        },
        Hunk {
            line_start: 3,
            line_end: 5,
            new_content: "replaced lines 3 to 5".to_string(),
        },
    ];
    let res = fast_apply("file", "line 1\nline 2\nline 3\nline 4\nline 5\n", &hunks);
    assert!(res.is_err());
    let err_msg = res.err().unwrap().message();
    assert!(err_msg.contains("Hunks overlap"), "Expected overlap error but got: {}", err_msg);
    assert_eq!(
        err_msg,
        "Hunks overlap: hunk 2 (lines 3-5) overlaps with hunk 1 (lines 2-4)"
    );
}

#[test]
fn hunks_are_applied_whatever_their_order() {
    let down = vec![hunk(1, 1, "first"), hunk(4, 5, "four\nand\nfive")];
    let up = vec![hunk(4, 5, "four\nand\nfive"), hunk(1, 1, "first")];
    for hunks in [down, up] {
        let done = fast_apply("a.rs", SOURCE, &hunks).ok().expect("the hunks fit");
        assert_eq!(done.output, "first\nline 2\nline 3\nfour\nand\nfive\n");
        assert_eq!(done.result.lines_changed, 3);
        assert_eq!(done.result.status, "ok");
        assert_eq!(done.result.file_path, "a.rs");
    }
}

#[test]
fn an_empty_replacement_deletes_lines() {
    let done = fast_apply("a", SOURCE, &vec![hunk(2, 4, "")]).ok().unwrap();
    assert_eq!(done.output, "line 1\nline 5\n");
    assert_eq!(done.result.lines_changed, 3);
    let done = fast_apply("a", SOURCE, &vec![hunk(1, 5, "")]).ok().unwrap();
    assert_eq!(done.output, "\n");
}

#[test]
fn a_missing_trailing_newline_stays_missing() {
    let done = fast_apply("a", "x\ny", &vec![hunk(2, 2, "z\n")]).ok().unwrap();
    assert_eq!(done.output, "x\nz");
}

#[test]
fn line_ends_stay_as_they_are() {
    let done = fast_apply("a", "x\r\ny\r\n", &vec![hunk(1, 1, "z")]).ok().unwrap();
    assert_eq!(done.output, "z\r\ny\r\n");
    let done = fast_apply("a", "x\r\ny\r\nw", &vec![hunk(2, 2, "p\nq")]).ok().unwrap();
    assert_eq!(done.output, "x\r\np\r\nq\r\nw");
    // Lines that no hunk replaces keep their own line ends.
    let done = fast_apply("a", "x\ny\r\nw\n", &vec![hunk(1, 1, "z")]).ok().unwrap();
    assert_eq!(done.output, "z\ny\r\nw\n");
    // A return that no newline follows is part of the line.
    let done = fast_apply("a", "a", &vec![hunk(1, 1, "y\r")]).ok().unwrap();
    assert_eq!(done.output, "y\r");
    let done = fast_apply("a", "a\nb\r", &vec![hunk(1, 1, "y")]).ok().unwrap();
    assert_eq!(done.output, "y\nb\r");
    // A line that comes to stand last loses its own line end where the file had none there.
    let done = fast_apply("a", "a\r\nb", &vec![hunk(2, 2, "")]).ok().unwrap();
    assert_eq!(done.output, "a");
    let done = fast_apply("a", "x\r\n", &vec![hunk(1, 1, "")]).ok().unwrap();
    assert_eq!(done.output, "\r\n");
}

#[test]
fn replacing_lines_by_themselves_changes_nothing() {
    let done =
        fast_apply("a", SOURCE, &vec![hunk(2, 3, "line 2\nline 3"), hunk(5, 5, "line 5")]).ok().unwrap();
    assert_eq!(done.output, SOURCE);
}

#[test]
fn no_hunks_leave_the_text() {
    let done = fast_apply("a", SOURCE, &Vec::new()).ok().unwrap();
    assert_eq!(done.output, SOURCE);
    assert_eq!(done.result.lines_changed, 0);
}

#[test]
fn bad_hunks_are_refused_with_their_reason() {
    let cases = vec![
        (hunk(0, 2, "x"), "Hunk line_start 0 is invalid (must be >= 1)"),
        (hunk(2, 6, "x"), "Hunk line_end 6 exceeds file length 5 — file may have changed"),
        (hunk(4, 2, "x"), "Hunk line_start 4 > line_end 2"),
    ];
    for (h, message) in cases {
        let e = fast_apply("a", SOURCE, &vec![h]).err().expect("the hunk is bad");
        assert_eq!(e.message(), message);
    }
    // The first bad hunk counts, and its first fault.
    let e = fast_apply("a", SOURCE, &vec![hunk(1, 1, ""), hunk(0, 9, ""), hunk(4, 2, "")]).err();
    assert_eq!(e, Some(ApplyError::StartBelowOne { line_start: 0 }));
    // Faults come before overlaps.
    let e = fast_apply("a", SOURCE, &vec![hunk(1, 2, ""), hunk(2, 3, ""), hunk(1, 9, "")]).err();
    assert_eq!(e, Some(ApplyError::EndPastFile { line_end: 9, total: 5 }));
}

#[test]
fn touching_hunks_do_not_overlap() {
    let done = fast_apply("a", SOURCE, &vec![hunk(1, 2, "a"), hunk(3, 3, "b")]).ok().unwrap();
    assert_eq!(done.output, "a\nb\nline 4\nline 5\n");
    let e = fast_apply("a", SOURCE, &vec![hunk(3, 3, "b"), hunk(1, 3, "a")]).err();
    assert_eq!(
        e,
        Some(ApplyError::Overlap {
            place: 1,
            start: 3,
            end: 3,
            previous_start: 1,
            previous_end: 3
        })
    );
}
