//! The command line: what its commands print.

use crate::db::StatsRow;
use crate::mcp::knowledge;
use crate::mcp::lookup;
use crate::paths;
use crate::text;
use crate::tools::gatekeeper::CheckResult;
use crate::tools::gatekeeper::GatekeeperResult;
use crate::tools::index::ProjectIndex;
use vstd::prelude::*;

verus! {

// ---------------------------------------------------------------------------
// Statistics
// ---------------------------------------------------------------------------

/// The days that a timeframe reaches back.
pub open spec fn timeframe_reach(name: Seq<char>) -> Option<nat> {
    if name == "day"@ {
        Some(1)
    } else if name == "week"@ {
        Some(7)
    } else if name == "month"@ {
        Some(28)
    } else {
        None
    }
}

/// Reads a timeframe: the days that it reaches back, or nothing for all time.
pub fn timeframe_days(timeframe: Option<&str>) -> (r: Result<Option<u32>, String>)
    ensures
        match timeframe {
            None => r == Ok::<Option<u32>, String>(None),
            Some(name) => match timeframe_reach(name@) {
                Some(d) => r matches Ok(Some(n)) && n == d,
                None => r matches Err(e) && e@ == "Unknown timeframe: "@ + name@
                    + ". Use 'day', 'week', or 'month'."@,
            },
        },
{
    match timeframe {
        None => Ok(None),
        Some(name) => {
            if text::str_eq(name, "day") {
                Ok(Some(1))
            } else if text::str_eq(name, "week") {
                Ok(Some(7))
            } else if text::str_eq(name, "month") {
                Ok(Some(28))
            } else {
                let mut e = text::copy("Unknown timeframe: ");
                e.append(name);
                e.append(". Use 'day', 'week', or 'month'.");
                Err(e)
            }
        },
    }
}

/// One line of the table.
pub open spec fn table_line(
    agent: Seq<char>,
    project: Seq<char>,
    saved: Seq<char>,
    usage: Seq<char>,
    share: Seq<char>,
) -> Seq<char> {
    text::padded_right(agent, 25) + " | "@ + text::padded_right(project, 25) + " | "@
        + text::padded_left(saved, 15) + " | "@ + text::padded_left(usage, 15) + " | "@ + share
}

/// The line of a row, with its percentage.
pub open spec fn row_line(
    agent: Seq<char>,
    project: Seq<char>,
    saved: nat,
    usage: nat,
    percent: Seq<char>,
) -> Seq<char> {
    table_line(
        agent,
        project,
        text::decimal(saved),
        text::decimal(usage),
        text::padded_left(percent, 7) + "%"@,
    )
}

fn render_line(agent: &str, project: &str, saved: &str, usage: &str, share: &str) -> (r: String)
    ensures
        r@ == table_line(agent@, project@, saved@, usage@, share@),
{
    let mut t = text::pad_right(agent, 25);
    t.append(" | ");
    t.append(text::pad_right(project, 25).as_str());
    t.append(" | ");
    t.append(text::pad_left(saved, 15).as_str());
    t.append(" | ");
    t.append(text::pad_left(usage, 15).as_str());
    t.append(" | ");
    t.append(share);
    t
}

fn render_row(agent: &str, project: &str, saved: u128, usage: u128, percent: &str) -> (r: String)
    ensures
        r@ == row_line(agent@, project@, saved as nat, usage as nat, percent@),
{
    let mut share = text::pad_left(percent, 7);
    share.append("%");
    render_line(
        agent,
        project,
        text::decimal_text(saved).as_str(),
        text::decimal_text(usage).as_str(),
        share.as_str(),
    )
}

/// The sum of saved tokens over the first `n` rows.
pub open spec fn saved_sum(rows: Seq<StatsRow>, n: nat) -> nat
    decreases n,
{
    if n == 0 {
        0
    } else {
        saved_sum(rows, (n - 1) as nat) + rows[n - 1].total_saved as nat
    }
}

/// The sum of used tokens over the first `n` rows.
pub open spec fn usage_sum(rows: Seq<StatsRow>, n: nat) -> nat
    decreases n,
{
    if n == 0 {
        0
    } else {
        usage_sum(rows, (n - 1) as nat) + rows[n - 1].total_usage as nat
    }
}

/// Adds up the rows.
pub fn stats_totals(rows: &Vec<StatsRow>) -> (r: (u128, u128))
    ensures
        r.0 == saved_sum(rows@, rows@.len()),
        r.1 == usage_sum(rows@, rows@.len()),
{
    let mut saved: u128 = 0;
    let mut usage: u128 = 0;
    let mut i: usize = 0;
    while i < rows.len()
        invariant
            i <= rows@.len(),
            saved == saved_sum(rows@, i as nat),
            usage == usage_sum(rows@, i as nat),
            saved <= i * 0xffff_ffff_ffff_ffff,
            usage <= i * 0xffff_ffff_ffff_ffff,
        decreases rows@.len() - i,
    {
        proof {
            assert(i * 0xffff_ffff_ffff_ffff <= 0xffff_ffff_ffff_ffff * 0xffff_ffff_ffff_ffff)
                by (nonlinear_arith)
                requires
                    i <= 0xffff_ffff_ffff_ffff,
            ;
            assert((i + 1) * 0xffff_ffff_ffff_ffff == i * 0xffff_ffff_ffff_ffff
                + 0xffff_ffff_ffff_ffff) by (nonlinear_arith);
        }
        saved += rows[i].total_saved as u128;
        usage += rows[i].total_usage as u128;
        i += 1;
    }
    (saved, usage)
}

/// The agent of a row as it is shown.
pub open spec fn agent_shown(row: StatsRow) -> Seq<char> {
    match row.agent_id {
        Some(a) => a@,
        None => "Unknown"@,
    }
}

/// The rule between the parts of the table.
pub open spec fn rule_line() -> Seq<char> {
    text::repeated('-', 25) + "-+-"@ + text::repeated('-', 25) + "-+-"@ + text::repeated('-', 15)
        + "-+-"@ + text::repeated('-', 15) + "-+-"@ + text::repeated('-', 8)
}

fn render_rule() -> (r: String)
    ensures
        r@ == rule_line(),
{
    let mut t = text::repeat('-', 25);
    t.append("-+-");
    t.append(text::repeat('-', 25).as_str());
    t.append("-+-");
    t.append(text::repeat('-', 15).as_str());
    t.append("-+-");
    t.append(text::repeat('-', 15).as_str());
    t.append("-+-");
    t.append(text::repeat('-', 8).as_str());
    t
}

/// The lines of the table: headline, rows, and totals. `percents` holds the percentage of each
/// row.
pub open spec fn stats_lines(
    rows: Seq<StatsRow>,
    percents: Seq<Seq<char>>,
    total_percent: Seq<char>,
) -> Seq<Seq<char>> {
    seq![
        table_line(
            "AGENT"@,
            "PROJECT"@,
            "TOKENS SAVED"@,
            "TOTAL TOKENS"@,
            text::padded_left("% SAVED"@, 8),
        ),
        rule_line(),
    ] + Seq::new(
        rows.len(),
        |i: int|
            row_line(
                agent_shown(rows[i]),
                rows[i].project@,
                rows[i].total_saved as nat,
                rows[i].total_usage as nat,
                percents[i],
            ),
    ) + seq![
        rule_line(),
        row_line(
            "TOTAL"@,
            ""@,
            saved_sum(rows, rows.len()),
            usage_sum(rows, rows.len()),
            total_percent,
        ),
    ]
}

/// Renders the table of statistics.
pub fn render_stats(
    rows: &Vec<StatsRow>,
    percents: &Vec<String>,
    total_percent: &str,
) -> (r: Vec<String>)
    requires
        percents@.len() == rows@.len(),
    ensures
        text::views(r@) == stats_lines(rows@, text::views(percents@), total_percent@),
{
    let ghost ps = text::views(percents@);
    let ghost body = Seq::new(
        rows@.len(),
        |i: int|
            row_line(
                agent_shown(rows@[i]),
                rows@[i].project@,
                rows@[i].total_saved as nat,
                rows@[i].total_usage as nat,
                ps[i],
            ),
    );
    let ghost head = seq![
        table_line(
            "AGENT"@,
            "PROJECT"@,
            "TOKENS SAVED"@,
            "TOTAL TOKENS"@,
            text::padded_left("% SAVED"@, 8),
        ),
        rule_line(),
    ];
    let mut r: Vec<String> = Vec::new();
    r.push(
        render_line(
            "AGENT",
            "PROJECT",
            "TOKENS SAVED",
            "TOTAL TOKENS",
            text::pad_left("% SAVED", 8).as_str(),
        ),
    );
    r.push(render_rule());
    let mut i: usize = 0;
    assert(text::views(r@) =~= head + body.take(0));
    while i < rows.len()
        invariant
            i <= rows@.len(),
            percents@.len() == rows@.len(),
            ps == text::views(percents@),
            body == Seq::new(
                rows@.len(),
                |k: int|
                    row_line(
                        agent_shown(rows@[k]),
                        rows@[k].project@,
                        rows@[k].total_saved as nat,
                        rows@[k].total_usage as nat,
                        ps[k],
                    ),
            ),
            text::views(r@) == head + body.take(i as int),
        decreases rows@.len() - i,
    {
        let row = &rows[i];
        let agent = match &row.agent_id {
            Some(a) => a.clone(),
            None => text::copy("Unknown"),
        };
        let line = render_row(
            agent.as_str(),
            row.project.as_str(),
            row.total_saved as u128,
            row.total_usage as u128,
            percents[i].as_str(),
        );
        let ghost before = r@;
        r.push(line);
        proof {
            text::lemma_views_push(before, line);
            assert(ps[i as int] == percents@[i as int]@);
            assert(line@ == body[i as int]);
            assert(head + body.take(i + 1) =~= (head + body.take(i as int)).push(body[i as int]));
        }
        i += 1;
    }
    let (saved, usage) = stats_totals(rows);
    r.push(render_rule());
    r.push(render_row("TOTAL", "", saved, usage, total_percent));
    proof {
        assert(body.take(body.len() as int) =~= body);
        assert(text::views(r@) =~= stats_lines(rows@, ps, total_percent@));
    }
    r
}

// ---------------------------------------------------------------------------
// Other commands
// ---------------------------------------------------------------------------

/// How many memories are dumped at most.
pub const DUMP_LIMIT: usize = 100;

/// How many of the stored memories are dumped, and whether some are left out.
pub fn dump_extent(records: usize) -> (r: (usize, bool))
    ensures
        r.0 == (if records <= DUMP_LIMIT {
            records
        } else {
            DUMP_LIMIT
        }),
        r.1 == (records > DUMP_LIMIT),
{
    if records <= DUMP_LIMIT {
        (records, false)
    } else {
        (DUMP_LIMIT, true)
    }
}

/// The lines of one check.
pub open spec fn check_lines(c: CheckResult) -> Seq<Seq<char>> {
    let first = (if c.passed {
        "  ✅ "@
    } else {
        "  ❌ "@
    }) + c.command@;
    if !text::is_blank(c.output@) && !c.passed {
        seq![first, text::trimmed(c.output@)]
    } else {
        seq![first]
    }
}

/// The lines of a run of checks: the headline, and the first `n` checks.
pub open spec fn run_lines(g: GatekeeperResult, n: nat) -> Seq<Seq<char>>
    decreases n,
{
    if n == 0 {
        seq![knowledge::verdict_text(g.passed, g.target@)]
    } else {
        run_lines(g, (n - 1) as nat) + check_lines(g.checks@[n - 1])
    }
}

/// Renders a run of checks. The output of a check is shown where it failed.
pub fn render_checks(g: &GatekeeperResult) -> (r: Vec<String>)
    ensures
        text::views(r@) == run_lines(*g, g.checks@.len()),
{
    let mut r: Vec<String> = Vec::new();
    r.push(knowledge::render_verdict(g.passed, g.target.as_str()));
    let mut i: usize = 0;
    assert(text::views(r@) =~= run_lines(*g, 0));
    while i < g.checks.len()
        invariant
            i <= g.checks@.len(),
            text::views(r@) == run_lines(*g, i as nat),
        decreases g.checks@.len() - i,
    {
        let c = &g.checks[i];
        let mut line = text::copy(if c.passed {
            "  ✅ "
        } else {
            "  ❌ "
        });
        line.append(c.command.as_str());
        let ghost before = text::views(r@);
        r.push(line);
        if !text::blank(c.output.as_str()) && !c.passed {
            r.push(text::trim(c.output.as_str()));
        }
        assert(text::views(r@) =~= before + check_lines(*c));
        i += 1;
    }
    r
}

/// Renders where a symbol is defined, or that it is unknown.
pub fn render_symbol(known: &ProjectIndex, symbol: &str) -> (r: String)
    ensures
        r@ == (match lookup::symbol_report(known@, symbol@) {
            Some(t) => t,
            None => "Symbol `"@ + symbol@ + "` not found."@,
        }),
{
    match lookup::report_symbol(known, symbol) {
        Some(t) => t,
        None => {
            let mut t = text::copy("Symbol `");
            t.append(symbol);
            t.append("` not found.");
            t
        },
    }
}

/// A path below a directory, by its parts.
pub open spec fn below(home: Seq<char>, parts: Seq<Seq<char>>) -> Seq<char>
    decreases parts.len(),
{
    if parts.len() == 0 {
        home
    } else {
        paths::joined_path(below(home, parts.drop_last()), parts.last())
    }
}

/// The configuration files of the editor environment, in the order in which they are tried.
pub fn antigravity_candidates(home: &str) -> (r: Vec<String>)
    ensures
        text::views(r@) == seq![
            below(home@, seq![".gemini"@, "antigravity"@, "mcp_config.json"@]),
            below(home@, seq![".gemini"@, "settings.json"@]),
            below(home@, seq![".config"@, "antigravity"@, "settings.json"@]),
        ],
{
    let mut r: Vec<String> = Vec::new();
    r.push(join_three(home, ".gemini", "antigravity", "mcp_config.json"));
    r.push(join_two(home, ".gemini", "settings.json"));
    r.push(join_three(home, ".config", "antigravity", "settings.json"));
    assert(text::views(r@) =~= seq![
        below(home@, seq![".gemini"@, "antigravity"@, "mcp_config.json"@]),
        below(home@, seq![".gemini"@, "settings.json"@]),
        below(home@, seq![".config"@, "antigravity"@, "settings.json"@]),
    ]);
    r
}

/// The name of the configuration file of a desktop application.
pub open spec fn desktop_file(short_name: Seq<char>) -> Seq<char> {
    short_name + "_desktop_config.json"@
}

/// The configuration files of a desktop application, in the order in which they are tried. It has
/// a short name and the name under which it keeps its support files.
pub fn desktop_candidates(home: &str, short_name: &str, support_name: &str) -> (r: Vec<String>)
    ensures
        text::views(r@) == seq![
            below(home@, seq![".config"@, short_name@, desktop_file(short_name@)]),
            below(
                home@,
                seq![
                    "Library"@,
                    "Application Support"@,
                    support_name@,
                    desktop_file(short_name@),
                ],
            ),
        ],
{
    let mut file = text::copy(short_name);
    file.append("_desktop_config.json");
    let mut r: Vec<String> = Vec::new();
    r.push(join_three(home, ".config", short_name, file.as_str()));
    let library = join_three(home, "Library", "Application Support", support_name);
    r.push(paths::join_path(library.as_str(), file.as_str()));
    proof {
        let four = seq!["Library"@, "Application Support"@, support_name@, file@];
        assert(four.drop_last() =~= seq!["Library"@, "Application Support"@, support_name@]);
        assert(text::views(r@) =~= seq![
            below(home@, seq![".config"@, short_name@, file@]),
            below(home@, four),
        ]);
    }
    r
}

fn join_two(home: &str, a: &str, b: &str) -> (r: String)
    ensures
        r@ == below(home@, seq![a@, b@]),
{
    proof {
        assert(seq![a@, b@].drop_last() =~= seq![a@]);
        assert(seq![a@].drop_last() =~= Seq::<Seq<char>>::empty());
        reveal_with_fuel(below, 3);
    }
    paths::join_path(paths::join_path(home, a).as_str(), b)
}

fn join_three(home: &str, a: &str, b: &str, c: &str) -> (r: String)
    ensures
        r@ == below(home@, seq![a@, b@, c@]),
{
    proof {
        assert(seq![a@, b@, c@].drop_last() =~= seq![a@, b@]);
    }
    paths::join_path(join_two(home, a, b).as_str(), c)
}

// ---------------------------------------------------------------------------
// Laws
// ---------------------------------------------------------------------------

/// A day, a week and a month reach back so many days; there is no other timeframe.
pub proof fn law_timeframes_reach_back(name: Seq<char>)
    ensures
        timeframe_reach(name) == Some(1nat) <==> name == "day"@,
        timeframe_reach(name) == Some(7nat) <==> name == "week"@,
        timeframe_reach(name) == Some(28nat) <==> name == "month"@,
        timeframe_reach(name) is None <==> name != "day"@ && name != "week"@ && name != "month"@,
{
    reveal_strlit("day");
    reveal_strlit("week");
    reveal_strlit("month");
    assert("day"@.len() == 3 && "week"@.len() == 4 && "month"@.len() == 5);
}

/// The totals are sums over all rows, wherever the rows are cut in two.
pub proof fn law_totals_are_sums(a: Seq<StatsRow>, b: Seq<StatsRow>, row: StatsRow)
    ensures
        saved_sum(seq![row], 1) == row.total_saved,
        usage_sum(seq![row], 1) == row.total_usage,
        saved_sum(a + b, (a + b).len()) == saved_sum(a, a.len()) + saved_sum(b, b.len()),
        usage_sum(a + b, (a + b).len()) == usage_sum(a, a.len()) + usage_sum(b, b.len()),
{
    reveal_with_fuel(saved_sum, 2);
    reveal_with_fuel(usage_sum, 2);
    lemma_sums(a, b, b.len());
}

proof fn lemma_sums(a: Seq<StatsRow>, b: Seq<StatsRow>, n: nat)
    requires
        n <= b.len(),
    ensures
        saved_sum(a + b, a.len() + n) == saved_sum(a, a.len()) + saved_sum(b, n),
        usage_sum(a + b, a.len() + n) == usage_sum(a, a.len()) + usage_sum(b, n),
    decreases n,
{
    if n == 0 {
        lemma_sums_of_front(a, b, a.len());
    } else {
        lemma_sums(a, b, (n - 1) as nat);
        assert((a + b)[a.len() + n - 1] == b[n - 1]);
    }
}

proof fn lemma_sums_of_front(a: Seq<StatsRow>, b: Seq<StatsRow>, n: nat)
    requires
        n <= a.len(),
    ensures
        saved_sum(a + b, n) == saved_sum(a, n),
        usage_sum(a + b, n) == usage_sum(a, n),
    decreases n,
{
    if n > 0 {
        lemma_sums_of_front(a, b, (n - 1) as nat);
        assert((a + b)[n - 1] == a[n - 1]);
    }
}

/// Every row has its line in the table, between the headline and the totals: the agent, the
/// project, the tokens saved and used, and the percentage, each in its column.
pub proof fn law_every_row_has_its_line(
    rows: Seq<StatsRow>,
    percents: Seq<Seq<char>>,
    total_percent: Seq<char>,
    agent: Seq<char>,
    i: int,
)
    requires
        0 <= i < rows.len(),
        rows[i].agent_id matches Some(a) ==> agent == a@,
        rows[i].agent_id is None ==> agent == "Unknown"@,
    ensures
        stats_lines(rows, percents, total_percent).len() == rows.len() + 4,
        stats_lines(rows, percents, total_percent)[2 + i] == text::padded_right(agent, 25) + " | "@
            + text::padded_right(rows[i].project@, 25) + " | "@ + text::padded_left(
            text::decimal(rows[i].total_saved as nat),
            15,
        ) + " | "@ + text::padded_left(text::decimal(rows[i].total_usage as nat), 15) + " | "@ + (
        text::padded_left(percents[i], 7) + "%"@),
{
}

/// The last line of the table holds the totals.
pub proof fn law_the_last_line_holds_the_totals(
    rows: Seq<StatsRow>,
    percents: Seq<Seq<char>>,
    total_percent: Seq<char>,
)
    ensures
        stats_lines(rows, percents, total_percent).last() == text::padded_right("TOTAL"@, 25)
            + " | "@ + text::padded_right(""@, 25) + " | "@ + text::padded_left(
            text::decimal(saved_sum(rows, rows.len())),
            15,
        ) + " | "@ + text::padded_left(text::decimal(usage_sum(rows, rows.len())), 15) + " | "@ + (
        text::padded_left(total_percent, 7) + "%"@),
        stats_lines(rows, percents, total_percent)[1] == stats_lines(
            rows,
            percents,
            total_percent,
        )[(rows.len() + 2) as int],
{
}

/// The rule has a dash below each column, and a cross below each bar.
pub proof fn law_the_rule_runs_below_the_columns()
    ensures
        rule_line().len() == 25 + 3 + 25 + 3 + 15 + 3 + 15 + 3 + 8,
        forall|i: int|
            0 <= i < rule_line().len() ==> #[trigger] rule_line()[i] == (if i == 26 || i == 54 || i
                == 72 || i == 90 {
                '+'
            } else {
                '-'
            }),
{
    reveal_strlit("-+-");
}

/// At most a hundred memories are dumped.
pub proof fn law_a_dump_has_its_limit()
    ensures
        DUMP_LIMIT == 100,
{
}

/// Each check adds a line with its outcome and command, and its output where it failed and has
/// some.
pub proof fn law_each_check_adds_its_lines(g: GatekeeperResult, i: int)
    requires
        0 <= i < g.checks@.len(),
    ensures
        run_lines(g, 0) == seq![knowledge::verdict_text(g.passed, g.target@)],
        g.checks@[i].passed ==> run_lines(g, (i + 1) as nat) == run_lines(g, i as nat).push(
            "  ✅ "@ + g.checks@[i].command@,
        ),
        !g.checks@[i].passed && text::is_blank(g.checks@[i].output@) ==> run_lines(
            g,
            (i + 1) as nat,
        ) == run_lines(g, i as nat).push("  ❌ "@ + g.checks@[i].command@),
        !g.checks@[i].passed && !text::is_blank(g.checks@[i].output@) ==> run_lines(
            g,
            (i + 1) as nat,
        ) == run_lines(g, i as nat).push("  ❌ "@ + g.checks@[i].command@).push(
            text::trimmed(g.checks@[i].output@),
        ),
{
    let before = run_lines(g, i as nat);
    let first = (if g.checks@[i].passed {
        "  ✅ "@
    } else {
        "  ❌ "@
    }) + g.checks@[i].command@;
    if !text::is_blank(g.checks@[i].output@) && !g.checks@[i].passed {
        assert(run_lines(g, (i + 1) as nat) =~= before.push(first).push(
            text::trimmed(g.checks@[i].output@),
        ));
    } else {
        assert(run_lines(g, (i + 1) as nat) =~= before.push(first));
    }
}

/// A path below a directory is the directory and the parts, with a slash in front of each.
pub proof fn law_parts_stand_below_the_directory(home: Seq<char>, parts: Seq<Seq<char>>)
    requires
        home.len() > 0,
        home.last() != '/',
        forall|i: int| 0 <= i < parts.len() ==> paths::is_name(#[trigger] parts[i]),
    ensures
        below(home, parts) == home + text::concatenated(
            parts.map_values(|p: Seq<char>| seq!['/'] + p),
        ),
        below(home, parts).len() > 0,
        below(home, parts).last() != '/',
    decreases parts.len(),
{
    let slashed = |p: Seq<char>| seq!['/'] + p;
    if parts.len() == 0 {
        assert(below(home, parts) =~= home + text::concatenated(parts.map_values(slashed)));
    } else {
        let front = parts.drop_last();
        let p = parts.last();
        assert forall|i: int| 0 <= i < front.len() implies paths::is_name(#[trigger] front[i]) by {
            assert(front[i] == parts[i]);
        }
        law_parts_stand_below_the_directory(home, front);
        assert(paths::is_name(parts[parts.len() - 1]));
        assert(p[0] != '/') by {
            assert(p.contains(p[0]));
        }
        assert(p.last() != '/') by {
            assert(p.contains(p[p.len() - 1]));
        }
        assert(parts.map_values(slashed).drop_last() =~= front.map_values(slashed));
        assert(below(home, parts) =~= home + text::concatenated(parts.map_values(slashed)));
        assert(below(home, parts).last() == p.last());
    }
}

/// The configuration file of a desktop application begins with its name.
pub proof fn law_desktop_files_are_named_after_the_application(short_name: Seq<char>)
    ensures
        desktop_file(short_name) == short_name + "_desktop_config.json"@,
{
}

} // verus!
