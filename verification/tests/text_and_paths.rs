use klaar::paths;
use klaar::text;
use std::path::Path;

const PATHS: &[&str] = &[
    "",
    "/",
    "//",
    ".",
    "./",
    "./a",
    "a",
    "a/",
    "a/b",
    "/a",
    "/a/",
    "/a/b/c.rs",
    "a//b///c",
    "/a/./b/../c",
    "../x",
    "..",
    "a/..",
    "a/.",
    ".hidden",
    "dir/.hidden",
    "dir/.hidden.txt",
    "noext",
    "two.dots.tar",
    "ends.",
    "/tmp/project-a",
    "/tmp/project-a/src/main.rs",
    "/tmp/project-ab",
    "über/straße.rs",
    "a/b/c/d/e/f",
];

#[test]
fn path_parts_agree_with_std() {
    for p in PATHS {
        let s = Path::new(p);
        assert_eq!(paths::parent(p), s.parent().map(|q| q.to_str().unwrap().to_string()), "parent {p}");
        assert_eq!(
            paths::file_name(p),
            s.file_name().map(|q| q.to_str().unwrap().to_string()),
            "file name {p}"
        );
        assert_eq!(
            paths::extension(p),
            s.extension().map(|q| q.to_str().unwrap().to_string()),
            "extension {p}"
        );
        let ancestors: Vec<String> =
            s.ancestors().map(|q| q.to_str().unwrap().to_string()).collect();
        assert_eq!(paths::ancestors(p), ancestors, "ancestors {p}");
    }
}

#[test]
fn containment_agrees_with_std() {
    for p in PATHS {
        for q in PATHS {
            assert_eq!(
                paths::is_within(p, q),
                Path::new(p).starts_with(Path::new(q)),
                "{p:?} within {q:?}"
            );
        }
    }
}

#[test]
fn joining_agrees_with_std() {
    for p in PATHS {
        for name in ["klaar", "config.toml", "a/b"] {
            assert_eq!(
                paths::join_path(p, name),
                Path::new(p).join(name).to_str().unwrap().to_string(),
                "{p:?} joined with {name:?}"
            );
        }
    }
}

#[test]
fn stripping_a_base_agrees_with_std() {
    for p in PATHS {
        for q in PATHS {
            let path = Path::new(p);
            let expected = path.strip_prefix(q).unwrap_or(path).to_str().unwrap().to_string();
            assert_eq!(paths::strip_base(p, q), expected, "{p:?} below {q:?}");
        }
    }
}

const TEXTS: &[&str] = &[
    "",
    "\n",
    "\r\n",
    "a",
    "a\n",
    "a\r\n",
    "a\nb",
    "a\n\nb\n",
    "\n\n",
    "a\r\nb\r\n",
    "a\rb",
    "  x  ",
    "\t\u{a0}x\u{3000}y \u{2028}",
    "one two\tthree\n four",
    "   ",
    "äöü ß",
    "a\r",
];

#[test]
fn lines_and_words_agree_with_std() {
    for t in TEXTS {
        let lines: Vec<String> = t.lines().map(|l| l.to_string()).collect();
        assert_eq!(text::lines(t), lines, "lines of {t:?}");
        let words: Vec<String> = t.split_whitespace().map(|l| l.to_string()).collect();
        assert_eq!(text::split_whitespace(t), words, "words of {t:?}");
        assert_eq!(text::trim(t), t.trim(), "trim {t:?}");
        assert_eq!(text::trim_end(t), t.trim_end(), "trim end {t:?}");
        assert_eq!(text::blank(t), t.trim().is_empty(), "blank {t:?}");
        assert_eq!(text::byte_count(t), t.len(), "bytes of {t:?}");
    }
}

#[test]
fn searching_in_texts_agrees_with_std() {
    for t in TEXTS {
        for p in ["", "a", "\n", "ö", "two", "  "] {
            assert_eq!(text::contains(t, p), t.contains(p), "{t:?} {p:?}");
            assert_eq!(text::ends_with(t, p), t.ends_with(p), "{t:?} {p:?}");
            assert_eq!(text::str_eq(t, p), *t == p, "{t:?} {p:?}");
        }
    }
    for g in ["*.rs", "**/*.rs", "*.**/*.rs", "*.*.rs", "rs", ""] {
        assert_eq!(
            text::trim_start_matches(g, "*."),
            g.trim_start_matches("*."),
            "{g:?}"
        );
    }
}

#[test]
fn white_space_agrees_with_std() {
    for c in '\u{0}'..='\u{ffff}' {
        assert_eq!(text::white(c), c.is_whitespace(), "{c:?}");
    }
}

#[test]
fn numbers_agree_with_std() {
    for n in [0u128, 1, 9, 10, 99, 100, 12345, u64::MAX as u128, u128::MAX] {
        assert_eq!(text::decimal_text(n), n.to_string());
    }
    for n in [0i64, 1, -1, 42, -42, i64::MAX, i64::MIN] {
        assert_eq!(text::signed_decimal_text(n), n.to_string());
    }
    for s in ["", "+", "-1", "0", "+7", "007", "4294967295", "4294967296", "99999999999", "1a", " 1"] {
        assert_eq!(text::parse_u32(s), s.parse::<u32>().ok(), "{s:?}");
    }
}

#[test]
fn padding_and_joining_agree_with_std() {
    for s in ["", "abc", "äöü", "a longer text"] {
        assert_eq!(text::pad_right(s, 6), format!("{:<6}", s));
        assert_eq!(text::pad_left(s, 6), format!("{:>6}", s));
    }
    assert_eq!(text::repeat('-', 4), "----");
    let parts = vec!["a".to_string(), "".to_string(), "c".to_string()];
    assert_eq!(text::join(&parts, ", "), "a, , c");
    assert_eq!(text::join(&Vec::new(), ", "), "");
}
