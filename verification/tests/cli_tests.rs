use klaar::cli::{
    antigravity_candidates, desktop_candidates, dump_extent, render_checks, render_stats,
    render_symbol, stats_totals, timeframe_days,
};
use klaar::db::StatsRow;
use klaar::parser::Symbol;
use klaar::tools::gatekeeper::{CheckResult, GatekeeperResult};
use klaar::tools::index::ProjectIndex;

fn row(agent: Option<&str>, project: &str, saved: usize, usage: usize) -> StatsRow {
    StatsRow {
        agent_id: agent.map(|a| a.to_string()),
        project: project.to_string(),
        total_saved: saved,
        total_usage: usage,
    }
}

#[test]
fn the_table_of_statistics() {
    let rows = vec![
        row(Some("antigravity"), "my-project", 11962, 12422),
        row(Some("antigravity-system"), "klaar_internal", 2951, 0),
        row(None, "my-project", 9822, 5187),
    ];
    let percents = vec!["96.3".to_string(), "0.0".to_string(), "189.4".to_string()];
    let lines = render_stats(&rows, &percents, "140.5");
    assert_eq!(
        lines,
        vec![
            "AGENT                     | PROJECT                   |    TOKENS SAVED |    TOTAL TOKENS |  % SAVED",
            "--------------------------+---------------------------+-----------------+-----------------+---------",
            "antigravity               | my-project                |           11962 |           12422 |    96.3%",
            "antigravity-system        | klaar_internal            |            2951 |               0 |     0.0%",
            "Unknown                   | my-project                |            9822 |            5187 |   189.4%",
            "--------------------------+---------------------------+-----------------+-----------------+---------",
            "TOTAL                     |                           |           24735 |           17609 |   140.5%",
        ]
    );
    assert_eq!(stats_totals(&rows), (24735, 17609));
}

#[test]
fn totals_do_not_overflow() {
    let rows = vec![row(None, "p", usize::MAX, usize::MAX), row(None, "p", usize::MAX, 1)];
    assert_eq!(
        stats_totals(&rows),
        (2 * (usize::MAX as u128), usize::MAX as u128 + 1)
    );
}

#[test]
fn timeframes_have_days() {
    assert_eq!(timeframe_days(None), Ok(None));
    assert_eq!(timeframe_days(Some("day")), Ok(Some(1)));
    assert_eq!(timeframe_days(Some("week")), Ok(Some(7)));
    assert_eq!(timeframe_days(Some("month")), Ok(Some(28)));
    assert_eq!(
        timeframe_days(Some("year")),
        Err("Unknown timeframe: year. Use 'day', 'week', or 'month'.".to_string())
    );
}

#[test]
fn dumps_are_capped() {
    assert_eq!(dump_extent(0), (0, false));
    assert_eq!(dump_extent(100), (100, false));
    assert_eq!(dump_extent(101), (100, true));
}

#[test]
fn checks_are_printed() {
    let check = |command: &str, passed: bool, output: &str| CheckResult {
        command: command.to_string(),
        passed,
        exit_code: None,
        output: output.to_string(),
    };
    let g = GatekeeperResult {
        passed: false,
        target: "production".to_string(),
        checks: vec![check("a", true, "fine"), check("b", false, " bad\n"), check("c", false, " ")],
    };
    assert_eq!(
        render_checks(&g),
        vec![
            "❌ Checks FAILED for target 'production'",
            "  ✅ a",
            "  ❌ b",
            "bad",
            "  ❌ c"
        ]
    );
}

#[test]
fn symbols_are_printed() {
    let mut index = ProjectIndex::new();
    index.add_symbols(
        "a.rs",
        &vec![Symbol { name: "f".to_string(), line: 3, kind: "function_item".to_string() }],
    );
    assert_eq!(
        render_symbol(&index, "f"),
        "Found 1 matches for `f`:\n  function_item → a.rs:L3\n"
    );
    assert_eq!(render_symbol(&index, "g"), "Symbol `g` not found.");
}

#[test]
fn configuration_files_are_tried_in_order() {
    assert_eq!(
        antigravity_candidates("/home/me"),
        vec![
            "/home/me/.gemini/antigravity/mcp_config.json",
            "/home/me/.gemini/settings.json",
            "/home/me/.config/antigravity/settings.json"
        ]
    );
    assert_eq!(
        desktop_candidates("/home/me", "editor", "Editor"),
        vec![
            "/home/me/.config/editor/editor_desktop_config.json",
            "/home/me/Library/Application Support/Editor/editor_desktop_config.json"
        ]
    );
}
