//! Searching a code base for a pattern.

use crate::config;
use crate::paths;
use crate::text;
use vstd::prelude::*;

verus! {

/// One matching line.
pub struct GrepMatch {
    pub file: String,
    pub line: u32,
    pub text: String,
}

impl View for GrepMatch {
    type V = (Seq<char>, nat, Seq<char>);

    open spec fn view(&self) -> (Seq<char>, nat, Seq<char>) {
        (self.file@, self.line as nat, self.text@)
    }
}

/// What a list of matches holds: file, line and text.
pub open spec fn match_views(v: Seq<GrepMatch>) -> Seq<(Seq<char>, nat, Seq<char>)> {
    Seq::new(v.len(), |i: int| v[i]@)
}

/// How many matches are reported at most.
pub const MAX_MATCHES: usize = 50;

/// How long a pattern may be, in bytes.
pub const MAX_PATTERN_BYTES: usize = 1024;

/// How large a file may be that is searched, in bytes.
pub const MAX_SEARCHED_BYTES: u64 = 1_000_000;

// ---------------------------------------------------------------------------
// Search
// ---------------------------------------------------------------------------

/// Whether a pattern is short enough.
pub open spec fn pattern_fits(pattern: Seq<char>) -> bool {
    text::byte_len(pattern) <= MAX_PATTERN_BYTES
}

/// Whether a pattern is short enough to be searched for.
pub fn pattern_allowed(pattern: &str) -> (r: bool)
    ensures
        r == pattern_fits(pattern@),
{
    text::byte_count(pattern) <= MAX_PATTERN_BYTES
}

/// The report on a search. `found` holds the matches, or why there are none.
pub fn search(pattern: &str, found: Result<Vec<GrepMatch>, String>) -> (r: Result<String, String>)
    ensures
        !pattern_fits(pattern@) ==> (r matches Err(e) && e@
            == "Search pattern is too long (maximum 1024 characters)"@),
        pattern_fits(pattern@) ==> match found {
            Ok(ms) => r matches Ok(out) && out@ == report(match_views(ms@), pattern@),
            Err(why) => r matches Err(e) && e@ == why@,
        },
{
    if !pattern_allowed(pattern) {
        return Err(text::copy("Search pattern is too long (maximum 1024 characters)"));
    }
    match found {
        Ok(ms) => Ok(format_output(&ms, pattern)),
        Err(e) => Err(e),
    }
}

// ---------------------------------------------------------------------------
// ripgrep
// ---------------------------------------------------------------------------

/// The arguments of ripgrep for a search.
pub open spec fn ripgrep_arguments(
    pattern: Seq<char>,
    root: Seq<char>,
    case_insensitive: bool,
    glob: Option<Seq<char>>,
) -> Seq<Seq<char>> {
    seq![
        "--line-number"@,
        "--no-heading"@,
        "--color=never"@,
        "--max-filesize=1M"@,
    ] + (if case_insensitive {
        seq!["--ignore-case"@]
    } else {
        seq![]
    }) + (match glob {
        Some(g) => seq!["--glob"@, g],
        None => seq![],
    }) + seq![pattern, root]
}

/// Puts together the arguments of ripgrep.
pub fn rg_arguments(
    pattern: &str,
    root: &str,
    case_insensitive: bool,
    include_glob: Option<&str>,
) -> (r: Vec<String>)
    ensures
        text::views(r@) == ripgrep_arguments(
            pattern@,
            root@,
            case_insensitive,
            config::optional_str(include_glob),
        ),
{
    let mut r: Vec<String> = Vec::new();
    r.push(text::copy("--line-number"));
    r.push(text::copy("--no-heading"));
    r.push(text::copy("--color=never"));
    r.push(text::copy("--max-filesize=1M"));
    if case_insensitive {
        r.push(text::copy("--ignore-case"));
    }
    if let Some(glob) = include_glob {
        r.push(text::copy("--glob"));
        r.push(text::copy(glob));
    }
    r.push(text::copy(pattern));
    r.push(text::copy(root));
    assert(text::views(r@) =~= ripgrep_arguments(
        pattern@,
        root@,
        case_insensitive,
        config::optional_str(include_glob),
    ));
    r
}

/// How long ripgrep may run, in milliseconds.
pub const RG_TIMEOUT_MILLIS: u64 = 10_000;

/// What is reported when ripgrep ran too long.
pub const RG_TIMEOUT_MESSAGE: &'static str = "ripgrep search timed out after 10 seconds";

/// What to do while ripgrep runs.
#[derive(Clone, Copy, PartialEq, Eq, Structural, Debug)]
pub enum WaitStep {
    /// It has finished.
    Done,
    /// It has run too long, and is to be stopped.
    GiveUp,
    /// It may run on.
    Wait,
}

/// Decides whether to wait on for ripgrep.
pub fn wait_step(finished: bool, elapsed_millis: u64) -> (r: WaitStep)
    ensures
        r == (if finished {
            WaitStep::Done
        } else if elapsed_millis >= RG_TIMEOUT_MILLIS {
            WaitStep::GiveUp
        } else {
            WaitStep::Wait
        }),
{
    if finished {
        WaitStep::Done
    } else if elapsed_millis >= RG_TIMEOUT_MILLIS {
        WaitStep::GiveUp
    } else {
        WaitStep::Wait
    }
}

/// The match in a line of the form `path:line:text`, if it has that form.
pub open spec fn ripgrep_match(line: Seq<char>) -> Option<(Seq<char>, nat, Seq<char>)> {
    let a = text::next_at(line, ':', 0);
    let b = text::next_at(line, ':', a + 1);
    if a < line.len() && b < line.len() {
        match text::u32_value(line.subrange(a + 1, b)) {
            Some(n) => Some(
                (
                    line.subrange(0, a),
                    n as nat,
                    text::trimmed(line.subrange(b + 1, line.len() as int)),
                ),
            ),
            None => None,
        }
    } else {
        None
    }
}

/// The matches in the first `n` lines, as many as are reported.
pub open spec fn ripgrep_matches(lines: Seq<Seq<char>>, n: nat) -> Seq<
    (Seq<char>, nat, Seq<char>),
>
    decreases n,
{
    if n == 0 {
        Seq::empty()
    } else {
        let before = ripgrep_matches(lines, (n - 1) as nat);
        if before.len() < MAX_MATCHES && ripgrep_match(lines[n - 1]) is Some {
            before.push(ripgrep_match(lines[n - 1])->0)
        } else {
            before
        }
    }
}

fn parse_rg_line(line: &str) -> (r: Option<GrepMatch>)
    ensures
        r is Some <==> ripgrep_match(line@) is Some,
        r matches Some(m) ==> ripgrep_match(line@) == Some(m@),
{
    let v = text::chars_of(line);
    let a: usize = text::position_from(&v, ':', 0);
    if a >= v.len() {
        return None;
    }
    let b: usize = text::position_from(&v, ':', a + 1);
    if b >= v.len() {
        return None;
    }
    let number = text::sub_string(&v, a + 1, b);
    match text::parse_u32(number.as_str()) {
        Some(n) => {
            let rest = text::sub_string(&v, b + 1, v.len());
            Some(
                GrepMatch {
                    file: text::sub_string(&v, 0, a),
                    line: n,
                    text: text::trim(rest.as_str()),
                },
            )
        },
        None => None,
    }
}

/// Reads the output of ripgrep.
pub fn parse_rg(stdout: &str) -> (r: Vec<GrepMatch>)
    ensures
        match_views(r@) == ripgrep_matches(
            text::lines_of(stdout@),
            text::lines_of(stdout@).len(),
        ),
        r@.len() <= MAX_MATCHES,
{
    let lines = text::lines(stdout);
    let ghost ls = text::lines_of(stdout@);
    assert(ls.len() == lines@.len());
    let mut r: Vec<GrepMatch> = Vec::new();
    let mut i: usize = 0;
    assert(match_views(r@) =~= ripgrep_matches(ls, 0));
    while i < lines.len()
        invariant
            i <= lines@.len(),
            ls == text::views(lines@),
            r@.len() <= MAX_MATCHES,
            match_views(r@) == ripgrep_matches(ls, i as nat),
        decreases lines@.len() - i,
    {
        if r.len() < MAX_MATCHES {
            if let Some(m) = parse_rg_line(lines[i].as_str()) {
                let ghost before = r@;
                r.push(m);
                assert(match_views(r@) =~= match_views(before).push(m@));
            }
        }
        i += 1;
    }
    r
}

// ---------------------------------------------------------------------------
// Search without ripgrep
// ---------------------------------------------------------------------------

/// The pattern that is compiled.
pub open spec fn compiled_pattern(pattern: Seq<char>, case_insensitive: bool) -> Seq<char> {
    if case_insensitive {
        "(?i)"@ + pattern
    } else {
        pattern
    }
}

/// Why `regex::Regex::new` refuses a pattern, if it does, on a machine with the given word size:
/// a syntax error, or a compiled size above the limit, which the word size has a part in.
pub uninterp spec fn pattern_error(pattern: Seq<char>, word_bits: nat) -> Option<Seq<char>>;

/// Whether `regex::Regex::is_match` finds a pattern in a line.
pub uninterp spec fn pattern_matches(pattern: Seq<char>, line: Seq<char>) -> bool;

/// Calls `regex::Regex::new` once, and then `regex::Regex::is_match` on each line. A refused
/// pattern gives the text of the error.
#[verifier::external_body]
fn matching_lines(pattern: &str, lines: &Vec<String>) -> (r: Result<Vec<bool>, String>)
    ensures
        match pattern_error(pattern@, usize::BITS as nat) {
            Some(e) => r matches Err(m) && m@ == e,
            None => r is Ok,
        },
        r matches Ok(v) ==> v@.len() == lines@.len() && forall|i: int|
            0 <= i < lines@.len() ==> (#[trigger] v@[i]) == pattern_matches(pattern@, lines@[i]@),
{
    match regex::Regex::new(pattern) {
        Ok(re) => Ok(lines.iter().map(|line| re.is_match(line)).collect()),
        Err(e) => Err(e.to_string()),
    }
}

/// Which lines a pattern matches.
pub open spec fn hits(pattern: Seq<char>, lines: Seq<Seq<char>>) -> Seq<bool> {
    Seq::new(lines.len(), |i: int| pattern_matches(pattern, lines[i]))
}

/// The line number of a line, counted from one, as it fits in 32 bits.
pub open spec fn line_number(i: int) -> nat {
    ((i + 1) % 0x1_0000_0000) as nat
}

/// The matches so far with those of the lines from `i` on, until there are as many as are
/// reported.
pub open spec fn collected(
    found: Seq<(Seq<char>, nat, Seq<char>)>,
    path: Seq<char>,
    lines: Seq<Seq<char>>,
    hit: Seq<bool>,
    i: int,
) -> Seq<(Seq<char>, nat, Seq<char>)>
    decreases lines.len() - i,
{
    if i >= lines.len() || i >= hit.len() {
        found
    } else if hit[i] {
        let more = found.push((path, line_number(i), text::trimmed(lines[i])));
        if more.len() >= MAX_MATCHES {
            more
        } else {
            collected(more, path, lines, hit, i + 1)
        }
    } else {
        collected(found, path, lines, hit, i + 1)
    }
}

/// Adds the matching lines of a file.
pub fn collect_matches(
    found: &mut Vec<GrepMatch>,
    path: &str,
    lines: &Vec<String>,
    hit: &Vec<bool>,
)
    ensures
        match_views(final(found)@) == collected(
            match_views(old(found)@),
            path@,
            text::views(lines@),
            hit@,
            0,
        ),
        old(found)@.len() < MAX_MATCHES ==> final(found)@.len() <= MAX_MATCHES,
{
    let ghost ls = text::views(lines@);
    let ghost goal = collected(match_views(found@), path@, ls, hit@, 0);
    let mut i: usize = 0;
    while i < lines.len() && i < hit.len()
        invariant
            i <= lines@.len(),
            i <= hit@.len(),
            ls == text::views(lines@),
            goal == collected(match_views(found@), path@, ls, hit@, i as int),
            goal == collected(match_views(old(found)@), path@, ls, hit@, 0),
            old(found)@.len() < MAX_MATCHES ==> found@.len() < MAX_MATCHES,
        decreases lines@.len() - i,
    {
        if hit[i] {
            let m = GrepMatch {
                file: text::copy(path),
                line: ((i as u128 + 1) % 0x1_0000_0000) as u32,
                text: text::trim(lines[i].as_str()),
            };
            let ghost before = found@;
            found.push(m);
            proof {
                assert(ls[i as int] == lines@[i as int]@);
                assert(match_views(found@) =~= match_views(before).push(m@));
            }
            if found.len() >= MAX_MATCHES {
                return;
            }
        }
        i += 1;
    }
}

/// A search through files, one after the other.
pub struct NativeSearch {
    /// The pattern that is compiled.
    pub pattern: String,
    /// The matches so far.
    pub found: Vec<GrepMatch>,
}

/// The matches so far with those of one more file.
pub open spec fn with_file(
    found: Seq<(Seq<char>, nat, Seq<char>)>,
    pattern: Seq<char>,
    path: Seq<char>,
    content: Seq<char>,
) -> Seq<(Seq<char>, nat, Seq<char>)> {
    if found.len() >= MAX_MATCHES {
        found
    } else {
        let lines = text::lines_of(content);
        collected(found, path, lines, hits(pattern, lines), 0)
    }
}

impl NativeSearch {
    /// Starts a search. A pattern that cannot be compiled is refused.
    pub fn start(pattern: &str, case_insensitive: bool) -> (r: Result<NativeSearch, String>)
        ensures
            match pattern_error(
                compiled_pattern(pattern@, case_insensitive),
                usize::BITS as nat,
            ) {
                Some(e) => r matches Err(m) && m@ == e,
                None => r matches Ok(s) && s.pattern@ == compiled_pattern(
                    pattern@,
                    case_insensitive,
                ) && s.found@.len() == 0,
            },
    {
        let mut full = String::new();
        if case_insensitive {
            full.append("(?i)");
        }
        full.append(pattern);
        proof {
            assert(full@ =~= compiled_pattern(pattern@, case_insensitive));
        }
        let none: Vec<String> = Vec::new();
        match matching_lines(full.as_str(), &none) {
            Ok(_) => Ok(NativeSearch { pattern: full, found: Vec::new() }),
            Err(e) => Err(e),
        }
    }

    /// Whether there are as many matches as are reported.
    pub fn is_full(&self) -> (r: bool)
        ensures
            r == (self.found@.len() >= MAX_MATCHES),
    {
        self.found.len() >= MAX_MATCHES
    }

    /// Searches one more file. Nothing is added once there are enough matches.
    pub fn feed(&mut self, path: &str, content: &str) -> (r: Result<(), String>)
        ensures
            final(self).pattern == old(self).pattern,
            match pattern_error(old(self).pattern@, usize::BITS as nat) {
                Some(e) => (r matches Err(m) && m@ == e) && final(self).found@ == old(self).found@,
                None => r is Ok && match_views(final(self).found@) == with_file(
                    match_views(old(self).found@),
                    old(self).pattern@,
                    path@,
                    content@,
                ),
            },
            old(self).found@.len() <= MAX_MATCHES ==> final(self).found@.len() <= MAX_MATCHES,
    {
        let lines = text::lines(content);
        match matching_lines(self.pattern.as_str(), &lines) {
            Ok(hit) => {
                assert(hit@ =~= hits(self.pattern@, text::lines_of(content@)));
                if self.found.len() < MAX_MATCHES {
                    collect_matches(&mut self.found, path, &lines, &hit);
                }
                Ok(())
            },
            Err(e) => Err(e),
        }
    }
}

proof fn lemma_collected_extends(
    found: Seq<(Seq<char>, nat, Seq<char>)>,
    path: Seq<char>,
    lines: Seq<Seq<char>>,
    hit: Seq<bool>,
    i: int,
)
    requires
        0 <= i,
        found.len() < MAX_MATCHES,
    ensures
        found.is_prefix_of(collected(found, path, lines, hit, i)),
        collected(found, path, lines, hit, i).len() <= MAX_MATCHES,
    decreases lines.len() - i,
{
    if i >= lines.len() || i >= hit.len() {
        assert(found.subrange(0, found.len() as int) =~= found);
    } else if hit[i] {
        let more = found.push((path, line_number(i), text::trimmed(lines[i])));
        assert(more.subrange(0, found.len() as int) =~= found);
        if more.len() < MAX_MATCHES {
            lemma_collected_extends(more, path, lines, hit, i + 1);
            let all = collected(more, path, lines, hit, i + 1);
            assert(all.subrange(0, found.len() as int) =~= more.subrange(0, found.len() as int));
        }
    } else {
        lemma_collected_extends(found, path, lines, hit, i + 1);
    }
}

/// One more file keeps the matches so far in front, and there are never more than are reported.
pub proof fn law_a_search_keeps_its_matches(
    found: Seq<(Seq<char>, nat, Seq<char>)>,
    pattern: Seq<char>,
    path: Seq<char>,
    content: Seq<char>,
)
    ensures
        found.is_prefix_of(with_file(found, pattern, path, content)),
        found.len() <= MAX_MATCHES ==> with_file(found, pattern, path, content).len()
            <= MAX_MATCHES,
{
    let lines = text::lines_of(content);
    if found.len() < MAX_MATCHES {
        lemma_collected_extends(found, path, lines, hits(pattern, lines), 0);
    } else {
        assert(found.subrange(0, found.len() as int) =~= found);
    }
}

/// The extension that a glob asks for.
pub open spec fn glob_extension(glob: Seq<char>) -> Seq<char> {
    text::without_leading(text::without_leading(glob, "*."@), "**/*."@)
}

/// The extensions of text files.
pub open spec fn is_text_extension(e: Seq<char>) -> bool {
    e == "rs"@ || e == "ts"@ || e == "tsx"@ || e == "js"@ || e == "jsx"@ || e == "py"@ || e
        == "go"@ || e == "toml"@ || e == "yaml"@ || e == "yml"@ || e == "json"@ || e == "md"@ || e
        == "txt"@ || e == "sh"@ || e == "sql"@ || e == "html"@ || e == "css"@ || e == "env"@ || e
        == "lock"@
}

/// Whether a file holds text, by its extension.
pub fn is_text_file(path: &str) -> (r: bool)
    ensures
        r == (paths::extension_of(path@) matches Some(e) && is_text_extension(e)),
{
    match paths::extension(path) {
        None => false,
        Some(ext) => {
            let e = ext.as_str();
            text::str_eq(e, "rs") || text::str_eq(e, "ts") || text::str_eq(e, "tsx")
                || text::str_eq(e, "js") || text::str_eq(e, "jsx") || text::str_eq(e, "py")
                || text::str_eq(e, "go") || text::str_eq(e, "toml") || text::str_eq(e, "yaml")
                || text::str_eq(e, "yml") || text::str_eq(e, "json") || text::str_eq(e, "md")
                || text::str_eq(e, "txt") || text::str_eq(e, "sh") || text::str_eq(e, "sql")
                || text::str_eq(e, "html") || text::str_eq(e, "css") || text::str_eq(e, "env")
                || text::str_eq(e, "lock")
        },
    }
}

/// Whether a file is searched: its extension is the one that the glob asks for, it is a text
/// file, and it is not known to be too large.
pub open spec fn is_searched(path: Seq<char>, size: Option<u64>, glob: Option<Seq<char>>) -> bool {
    &&& glob matches Some(g) ==> paths::extension_of(path) == Some(glob_extension(g))
    &&& paths::extension_of(path) matches Some(e) && is_text_extension(e)
    &&& size matches Some(n) ==> n <= MAX_SEARCHED_BYTES
}

/// Decides whether a file is searched.
pub fn searches_file(path: &str, size: Option<u64>, include_glob: Option<&str>) -> (r: bool)
    ensures
        r == is_searched(path@, size, config::optional_str(include_glob)),
{
    if let Some(glob) = include_glob {
        proof {
            reveal_strlit("*.");
            reveal_strlit("**/*.");
        }
        let once = text::trim_start_matches(glob, "*.");
        let wanted = text::trim_start_matches(once.as_str(), "**/*.");
        match paths::extension(path) {
            Some(ext) => {
                if !text::str_eq(ext.as_str(), wanted.as_str()) {
                    return false;
                }
            },
            None => {
                return false;
            },
        }
    }
    if !is_text_file(path) {
        return false;
    }
    match size {
        Some(n) => n <= MAX_SEARCHED_BYTES,
        None => true,
    }
}

// ---------------------------------------------------------------------------
// Reports
// ---------------------------------------------------------------------------

/// The file of the match in front of match `i`, or nothing.
pub open spec fn file_before(ms: Seq<(Seq<char>, nat, Seq<char>)>, i: int) -> Seq<char> {
    if i > 0 {
        ms[i - 1].0
    } else {
        Seq::empty()
    }
}

/// The part of a report for match `i`: the file where it is a new one, and the line.
pub open spec fn report_entry(ms: Seq<(Seq<char>, nat, Seq<char>)>, i: int) -> Seq<char> {
    (if ms[i].0 == file_before(ms, i) {
        Seq::empty()
    } else if file_before(ms, i).len() == 0 {
        "── "@ + ms[i].0 + "\n"@
    } else {
        "\n"@ + "── "@ + ms[i].0 + "\n"@
    }) + "  L"@ + text::decimal(ms[i].1) + ": "@ + ms[i].2 + "\n"@
}

/// The parts of a report for the first `n` matches.
pub open spec fn report_entries(ms: Seq<(Seq<char>, nat, Seq<char>)>, n: nat) -> Seq<char>
    decreases n,
{
    if n == 0 {
        Seq::empty()
    } else {
        report_entries(ms, (n - 1) as nat) + report_entry(ms, n - 1)
    }
}

/// The report on matches: grouped by file, and cut with a notice at the limit.
pub open spec fn report(ms: Seq<(Seq<char>, nat, Seq<char>)>, pattern: Seq<char>) -> Seq<char> {
    if ms.len() == 0 {
        "No matches found for `"@ + pattern + "`"@
    } else if ms.len() < MAX_MATCHES {
        report_entries(ms, ms.len())
    } else {
        report_entries(ms, MAX_MATCHES as nat) + "\n[truncated — showing 50 of "@ + text::decimal(
            ms.len(),
        ) + "+ matches. Refine your query.]"@
    }
}

/// The line of a report for a match.
pub open spec fn match_line(m: (Seq<char>, nat, Seq<char>)) -> Seq<char> {
    "  L"@ + text::decimal(m.1) + ": "@ + m.2 + "\n"@
}

/// The headline of a report for a file.
pub open spec fn headline(file: Seq<char>) -> Seq<char> {
    "── "@ + file + "\n"@
}

proof fn lemma_entry_parts(ms: Seq<(Seq<char>, nat, Seq<char>)>, i: int)
    requires
        0 <= i < ms.len(),
        forall|k: int| 0 <= k < ms.len() ==> (#[trigger] ms[k]).0.len() > 0,
    ensures
        report_entry(ms, i) == (if i > 0 && ms[i - 1].0 == ms[i].0 {
            Seq::empty()
        } else if i > 0 {
            "\n"@ + headline(ms[i].0)
        } else {
            headline(ms[i].0)
        }) + match_line(ms[i]),
{
    assert(ms[i].0.len() > 0);
    if i > 0 {
        assert(ms[i - 1].0.len() > 0);
    }
    assert(report_entry(ms, i) =~= (if i > 0 && ms[i - 1].0 == ms[i].0 {
        Seq::empty()
    } else if i > 0 {
        "\n"@ + headline(ms[i].0)
    } else {
        headline(ms[i].0)
    }) + match_line(ms[i]));
}

proof fn lemma_entries_of_head(
    ms: Seq<(Seq<char>, nat, Seq<char>)>,
    ns: Seq<(Seq<char>, nat, Seq<char>)>,
    n: nat,
)
    requires
        n <= ms.len(),
        n <= ns.len(),
        ms.take(n as int) == ns.take(n as int),
    ensures
        report_entries(ms, n) == report_entries(ns, n),
    decreases n,
{
    if n > 0 {
        assert forall|k: int| 0 <= k < n implies ms[k] == ns[k] by {
            assert(ms.take(n as int)[k] == ns.take(n as int)[k]);
        }
        assert(ms.take(n - 1) =~= ns.take(n - 1));
        lemma_entries_of_head(ms, ns, (n - 1) as nat);
        assert(ms[n - 1] == ns[n - 1]);
        assert(n > 1 ==> ms[n - 2] == ns[n - 2]);
    }
}

/// The report on one match is its file and its line.
pub proof fn law_a_report_names_the_file_and_the_line(
    m: (Seq<char>, nat, Seq<char>),
    pattern: Seq<char>,
)
    requires
        m.0.len() > 0,
    ensures
        report(seq![m], pattern) == "── "@ + m.0 + "\n"@ + ("  L"@ + text::decimal(m.1) + ": "@ + m.2
            + "\n"@),
        report(Seq::empty(), pattern) == "No matches found for `"@ + pattern + "`"@,
{
    let ms = seq![m];
    lemma_entry_parts(ms, 0);
    reveal_with_fuel(report_entries, 2);
    assert(report_entries(ms, 1) =~= report_entry(ms, 0));
}

/// With one more match the report goes on with its line. The file is named in front of it exactly
/// where it is not that of the match before.
pub proof fn law_one_more_match_is_reported_below_its_file(
    ms: Seq<(Seq<char>, nat, Seq<char>)>,
    m: (Seq<char>, nat, Seq<char>),
    pattern: Seq<char>,
)
    requires
        0 < ms.len(),
        ms.len() + 1 < 50,
        m.0.len() > 0,
        forall|k: int| 0 <= k < ms.len() ==> (#[trigger] ms[k]).0.len() > 0,
    ensures
        m.0 == ms.last().0 ==> report(ms.push(m), pattern) == report(ms, pattern) + ("  L"@
            + text::decimal(m.1) + ": "@ + m.2 + "\n"@),
        m.0 != ms.last().0 ==> report(ms.push(m), pattern) == report(ms, pattern) + ("\n"@ + (
        "── "@ + m.0 + "\n"@)) + ("  L"@ + text::decimal(m.1) + ": "@ + m.2 + "\n"@),
{
    let all = ms.push(m);
    let n = ms.len() as int;
    assert(all.take(n) =~= ms.take(n));
    lemma_entries_of_head(all, ms, ms.len());
    assert forall|k: int| 0 <= k < all.len() implies (#[trigger] all[k]).0.len() > 0 by {
        if k < n {
            assert(ms[k].0.len() > 0);
        }
    }
    lemma_entry_parts(all, n);
    assert(report(all, pattern) == report_entries(all, (n + 1) as nat));
    assert(report_entries(all, (n + 1) as nat) == report_entries(all, n as nat) + report_entry(
        all,
        n,
    ));
    let line = match_line(m);
    assert(report(ms, pattern) + (Seq::<char>::empty() + line) =~= report(ms, pattern) + line);
    assert(report(ms, pattern) + ("\n"@ + headline(m.0) + line) =~= report(ms, pattern) + ("\n"@
        + headline(m.0)) + line);
}

/// A report shows fifty matches at most. From fifty on it is that on the first forty-nine, the
/// fiftieth, and a notice with the number of matches.
pub proof fn law_long_reports_are_cut_with_a_notice(
    ms: Seq<(Seq<char>, nat, Seq<char>)>,
    pattern: Seq<char>,
)
    requires
        ms.len() >= 50,
        forall|k: int| 0 <= k < ms.len() ==> (#[trigger] ms[k]).0.len() > 0,
    ensures
        report(ms, pattern) == report(ms.take(49), pattern) + ((if ms[48].0 == ms[49].0 {
            Seq::empty()
        } else {
            "\n"@ + ("── "@ + ms[49].0 + "\n"@)
        }) + ("  L"@ + text::decimal(ms[49].1) + ": "@ + ms[49].2 + "\n"@))
            + "\n[truncated — showing 50 of "@ + text::decimal(ms.len())
            + "+ matches. Refine your query.]"@,
{
    let head = ms.take(49);
    assert(head.take(49) =~= ms.take(49));
    lemma_entries_of_head(ms, head, 49);
    lemma_entry_parts(ms, 49);
    assert(report_entries(ms, 50) == report_entries(ms, 49) + report_entry(ms, 49));
    assert(report(head, pattern) == report_entries(head, 49));
}

/// The lines of a report for the matches from `from` on in front of `to`.
pub open spec fn match_lines(ms: Seq<(Seq<char>, nat, Seq<char>)>, from: int, to: int) -> Seq<char>
    decreases to - from,
{
    if to <= from {
        Seq::empty()
    } else {
        match_lines(ms, from, to - 1) + match_line(ms[to - 1])
    }
}

proof fn lemma_group(ms: Seq<(Seq<char>, nat, Seq<char>)>, j: int, i: int)
    requires
        0 <= j <= i < ms.len(),
        j == 0 || ms[j - 1].0 != ms[j].0,
        forall|k: int| j <= k <= i ==> (#[trigger] ms[k]).0 == ms[j].0,
        forall|k: int| 0 <= k < ms.len() ==> (#[trigger] ms[k]).0.len() > 0,
    ensures
        report_entries(ms, (i + 1) as nat) == report_entries(ms, j as nat) + (if j > 0 {
            "\n"@
        } else {
            Seq::empty()
        }) + (headline(ms[j].0) + match_lines(ms, j, i + 1)),
    decreases i - j,
{
    let gap = if j > 0 {
        "\n"@
    } else {
        Seq::<char>::empty()
    };
    lemma_entry_parts(ms, i);
    assert(report_entries(ms, (i + 1) as nat) == report_entries(ms, i as nat) + report_entry(
        ms,
        i,
    ));
    if i == j {
        assert(match_lines(ms, j, j + 1) =~= match_line(ms[j])) by {
            assert(match_lines(ms, j, j) =~= Seq::empty());
        }
        assert(report_entries(ms, (i + 1) as nat) =~= report_entries(ms, j as nat) + gap + (
        headline(ms[j].0) + match_lines(ms, j, i + 1)));
    } else {
        lemma_group(ms, j, i - 1);
        assert(ms[i].0 == ms[j].0 && ms[i - 1].0 == ms[j].0);
        assert(report_entries(ms, (i + 1) as nat) =~= report_entries(ms, j as nat) + gap + (
        headline(ms[j].0) + match_lines(ms, j, i + 1)));
    }
}

proof fn lemma_entries_begin(ms: Seq<(Seq<char>, nat, Seq<char>)>, n: nat, m: nat)
    requires
        n <= m,
    ensures
        report_entries(ms, n).len() <= report_entries(ms, m).len(),
        report_entries(ms, m).take(report_entries(ms, n).len() as int) == report_entries(ms, n),
    decreases m - n,
{
    if n < m {
        lemma_entries_begin(ms, n, (m - 1) as nat);
        let k = report_entries(ms, n).len() as int;
        assert(report_entries(ms, m).take(k) =~= report_entries(ms, (m - 1) as nat).take(k));
    } else {
        assert(report_entries(ms, n).take(report_entries(ms, n).len() as int) =~= report_entries(
            ms,
            n,
        ));
    }
}

/// The matches of a file stand in the report below its name: the name, and directly behind it the
/// lines of the matches from the first one of the file on.
pub proof fn law_matches_stand_below_their_file(
    ms: Seq<(Seq<char>, nat, Seq<char>)>,
    pattern: Seq<char>,
    j: int,
    i: int,
)
    requires
        0 <= j <= i < ms.len(),
        i < 50,
        j == 0 || ms[j - 1].0 != ms[j].0,
        forall|k: int| j <= k <= i ==> (#[trigger] ms[k]).0 == ms[j].0,
        forall|k: int| 0 <= k < ms.len() ==> (#[trigger] ms[k]).0.len() > 0,
    ensures
        text::contains_text(
            report(ms, pattern),
            "── "@ + ms[i].0 + "\n"@ + match_lines(ms, j, i + 1),
        ),
{
    let part = headline(ms[j].0) + match_lines(ms, j, i + 1);
    let all = report(ms, pattern);
    let shown: nat = if ms.len() < 50 {
        ms.len()
    } else {
        50
    };
    lemma_group(ms, j, i);
    lemma_entries_begin(ms, (i + 1) as nat, shown);
    let before = report_entries(ms, (i + 1) as nat);
    let at = before.len() - part.len();
    assert(before.subrange(at, before.len() as int) =~= part);
    assert(all.take(before.len() as int) =~= before) by {
        assert(report_entries(ms, shown).take(before.len() as int) == before);
        assert(all.take(before.len() as int) =~= report_entries(ms, shown).take(
            before.len() as int,
        ));
    }
    assert(all.subrange(at, at + part.len()) =~= all.take(before.len() as int).subrange(
        at,
        before.len() as int,
    ));
    assert(text::occurs_at(all, part, at));
    assert(ms[i].0 == ms[j].0);
}

/// Renders the report on matches.
pub fn format_output(matches: &Vec<GrepMatch>, pattern: &str) -> (r: String)
    ensures
        r@ == report(match_views(matches@), pattern@),
{
    let ghost ms = match_views(matches@);
    if matches.len() == 0 {
        let mut out = text::copy("No matches found for `");
        out.append(pattern);
        out.append("`");
        return out;
    }
    let mut out = String::new();
    let mut i: usize = 0;
    while i < matches.len() && i < MAX_MATCHES
        invariant
            i <= matches@.len(),
            i <= MAX_MATCHES,
            ms == match_views(matches@),
            out@ == report_entries(ms, i as nat),
        decreases matches@.len() - i,
    {
        let m = &matches[i];
        assert(ms[i as int] == m@);
        let ghost before = out@;
        let mut entry = String::new();
        let same = if i > 0 {
            assert(ms[i - 1] == matches@[i - 1]@);
            text::str_eq(m.file.as_str(), matches[i - 1].file.as_str())
        } else {
            text::byte_count(m.file.as_str()) == 0
        };
        proof {
            text::lemma_byte_len_zero(m.file@);
            if i == 0 {
                assert(m.file@.len() == 0 ==> m.file@ =~= Seq::<char>::empty());
            }
            assert(same == (ms[i as int].0 == file_before(ms, i as int)));
        }
        if !same {
            if i > 0 && text::byte_count(matches[i - 1].file.as_str()) > 0 {
                proof {
                    text::lemma_byte_len_zero(matches@[i - 1].file@);
                }
                entry.append("\n");
                entry.append("── ");
                entry.append(m.file.as_str());
                entry.append("\n");
                assert(entry@ =~= "\n"@ + "── "@ + m.file@ + "\n"@);
            } else {
                proof {
                    if i > 0 {
                        text::lemma_byte_len_zero(matches@[i - 1].file@);
                    }
                }
                entry.append("── ");
                entry.append(m.file.as_str());
                entry.append("\n");
                assert(entry@ =~= "── "@ + m.file@ + "\n"@);
            }
        }
        entry.append("  L");
        entry.append(text::decimal_text(m.line as u128).as_str());
        entry.append(": ");
        entry.append(m.text.as_str());
        entry.append("\n");
        assert(entry@ =~= report_entry(ms, i as int));
        out.append(entry.as_str());
        i += 1;
    }
    if matches.len() >= MAX_MATCHES {
        out.append("\n[truncated — showing 50 of ");
        out.append(text::decimal_text(matches.len() as u128).as_str());
        out.append("+ matches. Refine your query.]");
    }
    out
}

// ---------------------------------------------------------------------------
// Laws
// ---------------------------------------------------------------------------

/// A line of ripgrep gives the file, the line number and the text without white space around it.
pub proof fn law_lines_of_ripgrep_are_read(file: Seq<char>, n: nat, found: Seq<char>)
    requires
        !file.contains(':'),
        n <= u32::MAX,
    ensures
        ripgrep_match(file.push(':') + text::decimal(n) + seq![':'] + found) == Some(
            (file, n, text::trimmed(found)),
        ),
{
    let line = file.push(':') + text::decimal(n) + seq![':'] + found;
    let a = file.len() as int;
    let d = text::decimal(n);
    let b = a + 1 + d.len();
    text::law_decimals_spell_their_number(n);
    assert(line[a] == ':' && line[b] == ':');
    text::lemma_next_at(line, ':', 0);
    let x = text::next_at(line, ':', 0);
    assert(x == a) by {
        if x < a {
            assert(file[x] == line[x]);
            assert(file.contains(file[x]));
        }
    }
    text::lemma_next_at(line, ':', a + 1);
    let y = text::next_at(line, ':', a + 1);
    assert(y == b) by {
        if y < b {
            assert(line[y] == d[y - a - 1]);
        }
    }
    assert(line.subrange(a + 1, b) =~= d);
    assert(line.subrange(0, a) =~= file);
    assert(line.subrange(b + 1, line.len() as int) =~= found);
}

/// A line without a colon is no match.
pub proof fn law_other_lines_are_no_match(line: Seq<char>)
    requires
        !line.contains(':'),
    ensures
        ripgrep_match(line) is None,
{
    text::lemma_next_at(line, ':', 0);
    let a = text::next_at(line, ':', 0);
    if a < line.len() {
        assert(line.contains(line[a]));
    }
}

proof fn lemma_matches_of_head(ls: Seq<Seq<char>>, ms: Seq<Seq<char>>, n: nat)
    requires
        n <= ls.len(),
        n <= ms.len(),
        ls.take(n as int) == ms.take(n as int),
    ensures
        ripgrep_matches(ls, n) == ripgrep_matches(ms, n),
    decreases n,
{
    if n > 0 {
        assert(ls.take(n - 1) =~= ls.take(n as int).take(n - 1));
        assert(ms.take(n - 1) =~= ms.take(n as int).take(n - 1));
        lemma_matches_of_head(ls, ms, (n - 1) as nat);
        assert(ls.take(n as int)[n - 1] == ms.take(n as int)[n - 1]);
    }
}

/// With one more line of output the matches stay, and the match of the line is added where there
/// is one and fewer than fifty came before.
pub proof fn law_one_more_line_of_output(lines: Seq<Seq<char>>, line: Seq<char>)
    ensures
        ripgrep_matches(Seq::empty(), 0).len() == 0,
        ripgrep_matches(lines.push(line), lines.len() + 1) == (if ripgrep_matches(
            lines,
            lines.len(),
        ).len() < 50 && ripgrep_match(line) is Some {
            ripgrep_matches(lines, lines.len()).push(ripgrep_match(line)->0)
        } else {
            ripgrep_matches(lines, lines.len())
        }),
{
    let n = lines.len() as int;
    assert(lines.push(line).take(n) =~= lines.take(n));
    lemma_matches_of_head(lines.push(line), lines, lines.len());
}

/// The matches in the first `n` lines of a file: its path, the number of the line from one on, and
/// the line without white space around it.
pub open spec fn matches_in(
    pattern: Seq<char>,
    path: Seq<char>,
    lines: Seq<Seq<char>>,
    n: nat,
) -> Seq<(Seq<char>, nat, Seq<char>)>
    decreases n,
{
    if n == 0 {
        Seq::empty()
    } else if pattern_matches(pattern, lines[n - 1]) {
        matches_in(pattern, path, lines, (n - 1) as nat).push(
            (path, n, text::trimmed(lines[n - 1])),
        )
    } else {
        matches_in(pattern, path, lines, (n - 1) as nat)
    }
}

proof fn lemma_collected(
    found: Seq<(Seq<char>, nat, Seq<char>)>,
    pattern: Seq<char>,
    path: Seq<char>,
    lines: Seq<Seq<char>>,
    i: int,
    all: Seq<(Seq<char>, nat, Seq<char>)>,
)
    requires
        0 <= i <= lines.len(),
        lines.len() <= u32::MAX,
        all + matches_in(pattern, path, lines, i as nat) == found,
        found.len() < 50,
    ensures
        collected(found, path, lines, hits(pattern, lines), i) == (if (all + matches_in(
            pattern,
            path,
            lines,
            lines.len(),
        )).len() <= 50 {
            all + matches_in(pattern, path, lines, lines.len())
        } else {
            (all + matches_in(pattern, path, lines, lines.len())).take(50)
        }),
    decreases lines.len() - i,
{
    let whole = all + matches_in(pattern, path, lines, lines.len());
    if i < lines.len() {
        assert(hits(pattern, lines)[i] == pattern_matches(pattern, lines[i]));
        assert(line_number(i) == i + 1);
        if hits(pattern, lines)[i] {
            let more = found.push((path, line_number(i), text::trimmed(lines[i])));
            assert(all + matches_in(pattern, path, lines, (i + 1) as nat) =~= more);
            if more.len() >= 50 {
                lemma_matches_grow(pattern, path, lines, (i + 1) as nat, lines.len());
                assert(whole.take(more.len() as int) =~= more);
                assert(whole.take(whole.len() as int) =~= whole);
            } else {
                lemma_collected(more, pattern, path, lines, i + 1, all);
            }
        } else {
            lemma_collected(found, pattern, path, lines, i + 1, all);
        }
    }
}

proof fn lemma_matches_grow(
    pattern: Seq<char>,
    path: Seq<char>,
    lines: Seq<Seq<char>>,
    n: nat,
    m: nat,
)
    requires
        n <= m,
    ensures
        matches_in(pattern, path, lines, n).len() <= matches_in(pattern, path, lines, m).len(),
        matches_in(pattern, path, lines, m).take(
            matches_in(pattern, path, lines, n).len() as int,
        ) == matches_in(pattern, path, lines, n),
    decreases m - n,
{
    let k = matches_in(pattern, path, lines, n).len() as int;
    if n < m {
        lemma_matches_grow(pattern, path, lines, n, (m - 1) as nat);
        assert(matches_in(pattern, path, lines, m).take(k) =~= matches_in(
            pattern,
            path,
            lines,
            (m - 1) as nat,
        ).take(k));
    } else {
        assert(matches_in(pattern, path, lines, n).take(k) =~= matches_in(
            pattern,
            path,
            lines,
            n,
        ));
    }
}

/// A search adds every matching line of a file, in order and with its number, until there are
/// fifty matches.
pub proof fn law_a_search_finds_every_matching_line(
    found: Seq<(Seq<char>, nat, Seq<char>)>,
    pattern: Seq<char>,
    path: Seq<char>,
    content: Seq<char>,
)
    requires
        found.len() < 50,
        text::lines_of(content).len() <= u32::MAX,
    ensures
        ({
            let lines = text::lines_of(content);
            let all = found + matches_in(pattern, path, lines, lines.len());
            with_file(found, pattern, path, content) == (if all.len() <= 50 {
                all
            } else {
                all.take(50)
            })
        }),
{
    let lines = text::lines_of(content);
    assert(found + matches_in(pattern, path, lines, 0) =~= found);
    lemma_collected(found, pattern, path, lines, 0, found);
}

/// A search without regard to case differs from one with it by the flag alone.
pub proof fn law_case_is_ignored_by_a_flag(pattern: Seq<char>)
    ensures
        compiled_pattern(pattern, false) == pattern,
        compiled_pattern(pattern, true) == "(?i)"@ + pattern,
{
}

/// The pattern and the root are the last arguments of ripgrep, in this order. In front of them
/// stand the flags: that for case where it is asked for, and the glob where there is one.
pub proof fn law_ripgrep_is_told_what_to_search_for(
    pattern: Seq<char>,
    root: Seq<char>,
    case_insensitive: bool,
    glob: Seq<char>,
)
    ensures
        ripgrep_arguments(pattern, root, false, None) == seq![
            "--line-number"@,
            "--no-heading"@,
            "--color=never"@,
            "--max-filesize=1M"@,
            pattern,
            root,
        ],
        ripgrep_arguments(pattern, root, case_insensitive, Some(glob)).len() == ripgrep_arguments(
            pattern,
            root,
            case_insensitive,
            None,
        ).len() + 2,
        ripgrep_arguments(pattern, root, true, None) == seq![
            "--line-number"@,
            "--no-heading"@,
            "--color=never"@,
            "--max-filesize=1M"@,
            "--ignore-case"@,
            pattern,
            root,
        ],
        ripgrep_arguments(pattern, root, true, Some(glob)) == seq![
            "--line-number"@,
            "--no-heading"@,
            "--color=never"@,
            "--max-filesize=1M"@,
            "--ignore-case"@,
            "--glob"@,
            glob,
            pattern,
            root,
        ],
        ripgrep_arguments(pattern, root, false, Some(glob)) == seq![
            "--line-number"@,
            "--no-heading"@,
            "--color=never"@,
            "--max-filesize=1M"@,
            "--glob"@,
            glob,
            pattern,
            root,
        ],
{
    assert(ripgrep_arguments(pattern, root, false, None) =~= seq![
        "--line-number"@,
        "--no-heading"@,
        "--color=never"@,
        "--max-filesize=1M"@,
        pattern,
        root,
    ]);
    assert(ripgrep_arguments(pattern, root, true, None) =~= seq![
        "--line-number"@,
        "--no-heading"@,
        "--color=never"@,
        "--max-filesize=1M"@,
        "--ignore-case"@,
        pattern,
        root,
    ]);
    assert(ripgrep_arguments(pattern, root, true, Some(glob)) =~= seq![
        "--line-number"@,
        "--no-heading"@,
        "--color=never"@,
        "--max-filesize=1M"@,
        "--ignore-case"@,
        "--glob"@,
        glob,
        pattern,
        root,
    ]);
    assert(ripgrep_arguments(pattern, root, false, Some(glob)) =~= seq![
        "--line-number"@,
        "--no-heading"@,
        "--color=never"@,
        "--max-filesize=1M"@,
        "--glob"@,
        glob,
        pattern,
        root,
    ]);
}

/// A glob for an extension asks for that extension.
pub proof fn law_a_glob_asks_for_its_extension(e: Seq<char>)
    requires
        e.len() > 0,
        e[0] != '*',
    ensures
        glob_extension("*."@ + e) == e,
        glob_extension("**/*."@ + e) == e,
        glob_extension(e) == e,
{
    reveal_strlit("*.");
    reveal_strlit("**/*.");
    lemma_no_leading(e, "*."@);
    lemma_no_leading(e, "**/*."@);
    let one = "*."@ + e;
    assert(one.subrange(0, 2) =~= "*."@);
    assert(one.skip(2) =~= e);
    assert(text::begins_with(one, "*."@));
    let deep = "**/*."@ + e;
    assert(deep.subrange(0, 5) =~= "**/*."@);
    assert(deep.skip(5) =~= e);
    assert(text::begins_with(deep, "**/*."@));
    assert(!text::begins_with(deep, "*."@)) by {
        assert(deep.subrange(0, 2)[1] == '*');
        assert("*."@[1] == '.');
    }
}

proof fn lemma_no_leading(e: Seq<char>, p: Seq<char>)
    requires
        e.len() > 0,
        p.len() > 0,
        e[0] != p[0],
    ensures
        text::without_leading(e, p) == e,
{
    if text::begins_with(e, p) {
        assert(e.subrange(0, p.len() as int)[0] == e[0]);
    }
}

/// A file is searched where its extension is that of a text file, the one that is asked for where
/// a glob asks for one, and the file is not known to be larger than a million bytes.
pub proof fn law_text_files_of_a_fair_size_are_searched(path: Seq<char>, e: Seq<char>, size: u64)
    requires
        paths::extension_of(path) == Some(e),
        e.len() > 0,
        e[0] != '*',
    ensures
        is_searched(path, Some(size), None) <==> size <= 1_000_000 && (e == "rs"@ || e == "ts"@ || e
            == "tsx"@ || e == "js"@ || e == "jsx"@ || e == "py"@ || e == "go"@ || e == "toml"@ || e
            == "yaml"@ || e == "yml"@ || e == "json"@ || e == "md"@ || e == "txt"@ || e == "sh"@
            || e == "sql"@ || e == "html"@ || e == "css"@ || e == "env"@ || e == "lock"@),
        is_searched(path, Some(size), Some("*."@ + e)) <==> is_searched(path, Some(size), None),
        is_searched(path, None, None) <==> is_searched(path, Some(0), None),
        forall|other: Seq<char>|
            other.len() > 0 && other[0] != '*' && other != e ==> !is_searched(
                path,
                Some(size),
                Some(#[trigger] ("*."@ + other)),
            ),
{
    law_a_glob_asks_for_its_extension(e);
    assert forall|other: Seq<char>|
        other.len() > 0 && other[0] != '*' && other != e implies !is_searched(
        path,
        Some(size),
        Some(#[trigger] ("*."@ + other)),
    ) by {
        law_a_glob_asks_for_its_extension(other);
    }
}

/// Patterns have 1024 bytes at most, reports fifty matches, and ripgrep has ten seconds.
pub proof fn law_searches_have_their_limits(pattern: Seq<char>)
    ensures
        pattern_fits(pattern) <==> text::byte_len(pattern) <= 1024,
        MAX_MATCHES == 50,
        RG_TIMEOUT_MILLIS == 10_000,
{
}

/// A line with a single colon is no match, nor is one without a number between the first two.
pub proof fn law_a_match_has_a_line_number(file: Seq<char>, middle: Seq<char>, rest: Seq<char>)
    requires
        !file.contains(':'),
        !middle.contains(':'),
    ensures
        ripgrep_match(file.push(':') + middle) is None,
        text::u32_value(middle) is None ==> ripgrep_match(
            file.push(':') + middle + seq![':'] + rest,
        ) is None,
        text::u32_value(middle) matches Some(n) ==> ripgrep_match(
            file.push(':') + middle + seq![':'] + rest,
        ) == Some((file, n as nat, text::trimmed(rest))),
{
    let a = file.len() as int;
    let b = a + 1 + middle.len();
    let short = file.push(':') + middle;
    lemma_colon_at(short, file, 0, a);
    text::lemma_next_at(short, ':', a + 1);
    let z = text::next_at(short, ':', a + 1);
    if z < short.len() {
        assert(middle[z - a - 1] == ':');
        assert(middle.contains(middle[z - a - 1]));
    }
    let line = file.push(':') + middle + seq![':'] + rest;
    lemma_colon_at(line, file, 0, a);
    lemma_colon_at(line, middle, a + 1, b);
    assert(line.subrange(a + 1, b) =~= middle);
    assert(line.subrange(0, a) =~= file);
    assert(line.subrange(b + 1, line.len() as int) =~= rest);
}

proof fn lemma_colon_at(line: Seq<char>, part: Seq<char>, from: int, at: int)
    requires
        0 <= from <= at < line.len(),
        at - from == part.len(),
        line[at] == ':',
        !part.contains(':'),
        forall|i: int| from <= i < at ==> #[trigger] line[i] == part[i - from],
    ensures
        text::next_at(line, ':', from) == at,
{
    text::lemma_next_at(line, ':', from);
    let x = text::next_at(line, ':', from);
    if x < at {
        assert(line[x] == part[x - from]);
        assert(part.contains(part[x - from]));
    }
}

/// Matches are listed one by one, with the file, the line and the text of each.
pub proof fn law_matches_are_listed_one_by_one(v: Seq<GrepMatch>, i: int)
    requires
        0 <= i < v.len(),
    ensures
        match_views(v).len() == v.len(),
        match_views(v)[i] == (v[i].file@, v[i].line as nat, v[i].text@),
{
}

} // verus!
