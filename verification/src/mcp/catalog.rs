//! The tools that are offered, and which tool a name stands for.

use crate::mcp::knowledge;
use crate::text;
use crate::tools::ls;
use crate::tools::read;
use vstd::prelude::*;

verus! {

/// What an argument of a tool is.
#[derive(Clone, Copy, PartialEq, Eq, Structural, Debug)]
pub enum Kind {
    Text,
    Integer,
    Boolean,
    TextList,
    HunkList,
}

/// The value of an argument that is left out.
#[derive(Clone, Copy, PartialEq, Eq, Structural, Debug)]
pub enum Preset {
    Nothing,
    Number(u64),
    Flag(bool),
}

/// An argument of a tool.
pub struct Property {
    pub name: String,
    pub kind: Kind,
    pub description: String,
    pub choices: Vec<String>,
    pub preset: Preset,
    pub maximum: Option<u64>,
    pub required: bool,
}

/// A tool with its arguments.
pub struct Tool {
    pub name: String,
    pub description: String,
    pub properties: Vec<Property>,
}

/// What an argument of a tool holds.
pub struct PropertyView {
    pub name: Seq<char>,
    pub kind: Kind,
    pub description: Seq<char>,
    pub choices: Seq<Seq<char>>,
    pub preset: Preset,
    pub maximum: Option<u64>,
    pub required: bool,
}

/// What a tool holds.
pub struct ToolView {
    pub name: Seq<char>,
    pub description: Seq<char>,
    pub properties: Seq<PropertyView>,
}

impl View for Property {
    type V = PropertyView;

    open spec fn view(&self) -> PropertyView {
        PropertyView {
            name: self.name@,
            kind: self.kind,
            description: self.description@,
            choices: text::views(self.choices@),
            preset: self.preset,
            maximum: self.maximum,
            required: self.required,
        }
    }
}

/// What a list of arguments holds.
pub open spec fn property_views(v: Seq<Property>) -> Seq<PropertyView> {
    Seq::new(v.len(), |i: int| v[i]@)
}

impl View for Tool {
    type V = ToolView;

    open spec fn view(&self) -> ToolView {
        ToolView {
            name: self.name@,
            description: self.description@,
            properties: property_views(self.properties@),
        }
    }
}

/// What a list of tools holds.
pub open spec fn tool_views(v: Seq<Tool>) -> Seq<ToolView> {
    Seq::new(v.len(), |i: int| v[i]@)
}

/// An argument without choices, preset or maximum.
pub open spec fn plain(
    name: Seq<char>,
    kind: Kind,
    description: Seq<char>,
    required: bool,
) -> PropertyView {
    PropertyView {
        name,
        kind,
        description,
        choices: Seq::empty(),
        preset: Preset::Nothing,
        maximum: None,
        required,
    }
}

fn property(name: &str, kind: Kind, description: &str, required: bool) -> (r: Property)
    ensures
        r@ == plain(name@, kind, description@, required),
{
    let r = Property {
        name: text::copy(name),
        kind,
        description: text::copy(description),
        choices: Vec::new(),
        preset: Preset::Nothing,
        maximum: None,
        required,
    };
    assert(r@.choices =~= Seq::<Seq<char>>::empty());
    r
}

/// The arguments of `surgical_read`.
pub open spec fn surgical_read_arguments() -> Seq<PropertyView> {
    seq![
        plain("file_path"@, Kind::Text, "Absolute or relative path to the file to read"@, true),
        PropertyView { choices: seq!["skeleton"@, "full"@, "compressed"@], ..plain("mode"@, Kind::Text, "Use 'skeleton' for signatures, 'compressed' for full file without comments, 'full' for complete content"@, true) },
        plain("agent_id"@, Kind::Text, "Unique identifier of the agent requesting the read. Used for token tracking."@, true),
    ]
}

/// Lists the arguments of `surgical_read`.
fn surgical_read_properties() -> (r: Vec<Property>)
    ensures
        property_views(r@) == surgical_read_arguments(),
{
    let mut r: Vec<Property> = Vec::new();
    r.push(property("file_path", Kind::Text, "Absolute or relative path to the file to read", true));
    let mut mode = property("mode", Kind::Text, "Use 'skeleton' for signatures, 'compressed' for full file without comments, 'full' for complete content", true);
    let mut choices: Vec<String> = Vec::new();
    choices.push(text::copy("skeleton"));
    choices.push(text::copy("full"));
    choices.push(text::copy("compressed"));
    assert(text::views(choices@) =~= seq!["skeleton"@, "full"@, "compressed"@]);
    mode.choices = choices;
    r.push(mode);
    r.push(property("agent_id", Kind::Text, "Unique identifier of the agent requesting the read. Used for token tracking.", true));
    assert(property_views(r@) =~= surgical_read_arguments());
    r
}

/// The arguments of `fast_apply`.
pub open spec fn fast_apply_arguments() -> Seq<PropertyView> {
    seq![
        plain("file_path"@, Kind::Text, "Path to the file to patch"@, true),
        plain("hunks"@, Kind::HunkList, "List of line replacements to apply"@, true),
        plain("agent_id"@, Kind::Text, "Unique identifier of the agent applying the code. Required for lock evaluation."@, true),
    ]
}

/// Lists the arguments of `fast_apply`.
fn fast_apply_properties() -> (r: Vec<Property>)
    ensures
        property_views(r@) == fast_apply_arguments(),
{
    let mut r: Vec<Property> = Vec::new();
    r.push(property("file_path", Kind::Text, "Path to the file to patch", true));
    r.push(property("hunks", Kind::HunkList, "List of line replacements to apply", true));
    r.push(property("agent_id", Kind::Text, "Unique identifier of the agent applying the code. Required for lock evaluation.", true));
    assert(property_views(r@) =~= fast_apply_arguments());
    r
}

/// The arguments of `store_memory`.
pub open spec fn store_memory_arguments() -> Seq<PropertyView> {
    seq![
        plain("key"@, Kind::Text, "Unique identifier for this memory within the project"@, true),
        plain("content"@, Kind::Text, "The memory content to store"@, true),
        plain("tags"@, Kind::TextList, "Tags for categorization"@, false),
        plain("project"@, Kind::Text, "Project name or identifier"@, true),
    ]
}

/// Lists the arguments of `store_memory`.
fn store_memory_properties() -> (r: Vec<Property>)
    ensures
        property_views(r@) == store_memory_arguments(),
{
    let mut r: Vec<Property> = Vec::new();
    r.push(property("key", Kind::Text, "Unique identifier for this memory within the project", true));
    r.push(property("content", Kind::Text, "The memory content to store", true));
    r.push(property("tags", Kind::TextList, "Tags for categorization", false));
    r.push(property("project", Kind::Text, "Project name or identifier", true));
    assert(property_views(r@) =~= store_memory_arguments());
    r
}

/// The arguments of `recall_memory`.
pub open spec fn recall_memory_arguments() -> Seq<PropertyView> {
    seq![
        plain("query"@, Kind::Text, "Search query"@, true),
        plain("project"@, Kind::Text, "Project name to search within"@, true),
        PropertyView { preset: Preset::Number(5), maximum: Some(50), ..plain("limit"@, Kind::Integer, "Max results to return (default: 5, max: 50)"@, false) },
    ]
}

/// Lists the arguments of `recall_memory`.
fn recall_memory_properties() -> (r: Vec<Property>)
    ensures
        property_views(r@) == recall_memory_arguments(),
{
    let mut r: Vec<Property> = Vec::new();
    r.push(property("query", Kind::Text, "Search query", true));
    r.push(property("project", Kind::Text, "Project name to search within", true));
    let mut limit = property("limit", Kind::Integer, "Max results to return (default: 5, max: 50)", false);
    limit.preset = Preset::Number(5);
    limit.maximum = Some(50);
    r.push(limit);
    assert(property_views(r@) =~= recall_memory_arguments());
    r
}

/// The arguments of `record_decision`.
pub open spec fn record_decision_arguments() -> Seq<PropertyView> {
    seq![
        plain("project"@, Kind::Text, "Project identifier"@, true),
        plain("decision"@, Kind::Text, "The decision made"@, true),
        plain("context"@, Kind::Text, "Context and reasoning for the decision"@, true),
        plain("files"@, Kind::TextList, "Files governed by this decision"@, true),
    ]
}

/// Lists the arguments of `record_decision`.
fn record_decision_properties() -> (r: Vec<Property>)
    ensures
        property_views(r@) == record_decision_arguments(),
{
    let mut r: Vec<Property> = Vec::new();
    r.push(property("project", Kind::Text, "Project identifier", true));
    r.push(property("decision", Kind::Text, "The decision made", true));
    r.push(property("context", Kind::Text, "Context and reasoning for the decision", true));
    r.push(property("files", Kind::TextList, "Files governed by this decision", true));
    assert(property_views(r@) =~= record_decision_arguments());
    r
}

/// The arguments of `get_why`.
pub open spec fn get_why_arguments() -> Seq<PropertyView> {
    seq![
        plain("project"@, Kind::Text, "Project identifier"@, true),
        plain("files"@, Kind::TextList, "Files to check decisions for"@, true),
    ]
}

/// Lists the arguments of `get_why`.
fn get_why_properties() -> (r: Vec<Property>)
    ensures
        property_views(r@) == get_why_arguments(),
{
    let mut r: Vec<Property> = Vec::new();
    r.push(property("project", Kind::Text, "Project identifier", true));
    r.push(property("files", Kind::TextList, "Files to check decisions for", true));
    assert(property_views(r@) =~= get_why_arguments());
    r
}

/// The arguments of `confirm_decision`.
pub open spec fn confirm_decision_arguments() -> Seq<PropertyView> {
    seq![
        plain("decision_id"@, Kind::Text, "ID of the decision to confirm"@, true),
        plain("project"@, Kind::Text, "Project identifier to verify ownership"@, true),
    ]
}

/// Lists the arguments of `confirm_decision`.
fn confirm_decision_properties() -> (r: Vec<Property>)
    ensures
        property_views(r@) == confirm_decision_arguments(),
{
    let mut r: Vec<Property> = Vec::new();
    r.push(property("decision_id", Kind::Text, "ID of the decision to confirm", true));
    r.push(property("project", Kind::Text, "Project identifier to verify ownership", true));
    assert(property_views(r@) =~= confirm_decision_arguments());
    r
}

/// The arguments of `pre_push_check`.
pub open spec fn pre_push_check_arguments() -> Seq<PropertyView> {
    seq![
        plain("project_path"@, Kind::Text, "Absolute path to the project root"@, true),
        plain("target"@, Kind::Text, "Target name (e.g. 'production', 'staging')"@, true),
    ]
}

/// Lists the arguments of `pre_push_check`.
fn pre_push_check_properties() -> (r: Vec<Property>)
    ensures
        property_views(r@) == pre_push_check_arguments(),
{
    let mut r: Vec<Property> = Vec::new();
    r.push(property("project_path", Kind::Text, "Absolute path to the project root", true));
    r.push(property("target", Kind::Text, "Target name (e.g. 'production', 'staging')", true));
    assert(property_views(r@) =~= pre_push_check_arguments());
    r
}

/// The arguments of `lock_file`.
pub open spec fn lock_file_arguments() -> Seq<PropertyView> {
    seq![
        plain("file_path"@, Kind::Text, "Path to the file to lock"@, true),
        plain("agent_id"@, Kind::Text, "Your agent identifier"@, true),
    ]
}

/// Lists the arguments of `lock_file`.
fn lock_file_properties() -> (r: Vec<Property>)
    ensures
        property_views(r@) == lock_file_arguments(),
{
    let mut r: Vec<Property> = Vec::new();
    r.push(property("file_path", Kind::Text, "Path to the file to lock", true));
    r.push(property("agent_id", Kind::Text, "Your agent identifier", true));
    assert(property_views(r@) =~= lock_file_arguments());
    r
}

/// The arguments of `unlock_file`.
pub open spec fn unlock_file_arguments() -> Seq<PropertyView> {
    seq![
        plain("file_path"@, Kind::Text, "Path to the file to unlock"@, true),
        plain("agent_id"@, Kind::Text, "Your agent identifier"@, true),
    ]
}

/// Lists the arguments of `unlock_file`.
fn unlock_file_properties() -> (r: Vec<Property>)
    ensures
        property_views(r@) == unlock_file_arguments(),
{
    let mut r: Vec<Property> = Vec::new();
    r.push(property("file_path", Kind::Text, "Path to the file to unlock", true));
    r.push(property("agent_id", Kind::Text, "Your agent identifier", true));
    assert(property_views(r@) =~= unlock_file_arguments());
    r
}

/// The arguments of `grep`.
pub open spec fn grep_arguments() -> Seq<PropertyView> {
    seq![
        plain("query"@, Kind::Text, "Search pattern (regex supported)"@, true),
        plain("project_path"@, Kind::Text, "Absolute path to search within"@, true),
        PropertyView { preset: Preset::Flag(true), ..plain("case_insensitive"@, Kind::Boolean, "Whether to ignore case (default: true)"@, false) },
        plain("include_glob"@, Kind::Text, "Optional glob pattern (e.g. '*.rs')"@, false),
    ]
}

/// Lists the arguments of `grep`.
fn grep_properties() -> (r: Vec<Property>)
    ensures
        property_views(r@) == grep_arguments(),
{
    let mut r: Vec<Property> = Vec::new();
    r.push(property("query", Kind::Text, "Search pattern (regex supported)", true));
    r.push(property("project_path", Kind::Text, "Absolute path to search within", true));
    let mut case_insensitive = property("case_insensitive", Kind::Boolean, "Whether to ignore case (default: true)", false);
    case_insensitive.preset = Preset::Flag(true);
    r.push(case_insensitive);
    r.push(property("include_glob", Kind::Text, "Optional glob pattern (e.g. '*.rs')", false));
    assert(property_views(r@) =~= grep_arguments());
    r
}

/// The arguments of `ls`.
pub open spec fn ls_arguments() -> Seq<PropertyView> {
    seq![
        plain("project_path"@, Kind::Text, "Absolute path to list"@, true),
        PropertyView { preset: Preset::Number(2), ..plain("max_depth"@, Kind::Integer, "Maximum depth to traverse (default: 2)"@, false) },
    ]
}

/// Lists the arguments of `ls`.
fn ls_properties() -> (r: Vec<Property>)
    ensures
        property_views(r@) == ls_arguments(),
{
    let mut r: Vec<Property> = Vec::new();
    r.push(property("project_path", Kind::Text, "Absolute path to list", true));
    let mut max_depth = property("max_depth", Kind::Integer, "Maximum depth to traverse (default: 2)", false);
    max_depth.preset = Preset::Number(2);
    r.push(max_depth);
    assert(property_views(r@) =~= ls_arguments());
    r
}

/// The arguments of `find_symbol`.
pub open spec fn find_symbol_arguments() -> Seq<PropertyView> {
    seq![
        plain("symbol"@, Kind::Text, "Name of the symbol to find"@, true),
        plain("project_path"@, Kind::Text, "Absolute path to the project root"@, true),
    ]
}

/// Lists the arguments of `find_symbol`.
fn find_symbol_properties() -> (r: Vec<Property>)
    ensures
        property_views(r@) == find_symbol_arguments(),
{
    let mut r: Vec<Property> = Vec::new();
    r.push(property("symbol", Kind::Text, "Name of the symbol to find", true));
    r.push(property("project_path", Kind::Text, "Absolute path to the project root", true));
    assert(property_views(r@) =~= find_symbol_arguments());
    r
}

/// The arguments of `get_co_changes`.
pub open spec fn get_co_changes_arguments() -> Seq<PropertyView> {
    seq![
        plain("project"@, Kind::Text, "Project identifier"@, true),
    ]
}

/// Lists the arguments of `get_co_changes`.
fn get_co_changes_properties() -> (r: Vec<Property>)
    ensures
        property_views(r@) == get_co_changes_arguments(),
{
    let mut r: Vec<Property> = Vec::new();
    r.push(property("project", Kind::Text, "Project identifier", true));
    assert(property_views(r@) =~= get_co_changes_arguments());
    r
}

/// The arguments of a line replacement.
pub open spec fn hunk_arguments() -> Seq<PropertyView> {
    seq![
        plain("line_start"@, Kind::Integer, "First line to replace (1-indexed, inclusive)"@, true),
        plain("line_end"@, Kind::Integer, "Last line to replace (1-indexed, inclusive)"@, true),
        plain("new_content"@, Kind::Text, "Replacement content for the specified line range"@, true),
    ]
}

/// Lists the arguments of a line replacement.
pub fn hunk_properties() -> (r: Vec<Property>)
    ensures
        property_views(r@) == hunk_arguments(),
{
    let mut r: Vec<Property> = Vec::new();
    r.push(property("line_start", Kind::Integer, "First line to replace (1-indexed, inclusive)", true));
    r.push(property("line_end", Kind::Integer, "Last line to replace (1-indexed, inclusive)", true));
    r.push(property("new_content", Kind::Text, "Replacement content for the specified line range", true));
    assert(property_views(r@) =~= hunk_arguments());
    r
}

/// The tools that are offered.
pub open spec fn catalog() -> Seq<ToolView> {
    seq![
        ToolView {
            name: "surgical_read"@,
            description: "Read a file in 'full', 'skeleton', or 'compressed' mode. Skeleton mode extracts only signatures (signatures only). Compressed mode is a full file read with all comments removed using tree-sitter. Reduces token usage while remaining semantically lossless."@,
            properties: surgical_read_arguments(),
        },
        ToolView {
            name: "fast_apply"@,
            description: "Apply surgical line replacements to a file without rewriting it entirely. Validates line numbers before applying. Hunks are applied bottom-up for correctness."@,
            properties: fast_apply_arguments(),
        },
        ToolView {
            name: "store_memory"@,
            description: "Store a memory entry in the embedded SurrealDB. Call this when you learn something important about a project — decisions, architecture patterns, gotchas. The agent can recall these in future sessions."@,
            properties: store_memory_arguments(),
        },
        ToolView {
            name: "recall_memory"@,
            description: "Search stored memories using hybrid vector+BM25 search (or BM25 fallback), filtered by project. Call this at the start of any task to retrieve prior decisions and context. Max 50 results."@,
            properties: recall_memory_arguments(),
        },
        ToolView {
            name: "record_decision"@,
            description: "Record an architectural decision to the memory store, linking it to the files it governs. If a decision with the same text already exists for this project, its context and governed files are updated but confidence is preserved. Call confirm_decision to explicitly restore confidence to 1.0."@,
            properties: record_decision_arguments(),
        },
        ToolView {
            name: "get_why"@,
            description: "Get architectural decisions governing the given files. Use before modifying complex files to avoid breaking established patterns."@,
            properties: get_why_arguments(),
        },
        ToolView {
            name: "confirm_decision"@,
            description: "Confirm that an existing decision is still valid, restoring its confidence score to 1.0."@,
            properties: confirm_decision_arguments(),
        },
        ToolView {
            name: "pre_push_check"@,
            description: "Run pre-push validation checks defined in .klaar/targets.toml for a given target (e.g. 'production'). Runs checks sequentially; stops on first failure. Times out after 120s per check. Optionally runs `but validate` if GitButler CLI is present."@,
            properties: pre_push_check_arguments(),
        },
        ToolView {
            name: "lock_file"@,
            description: "Claim exclusive modification rights for a file tied to your agent ID. Required prior to calling fast_apply."@,
            properties: lock_file_arguments(),
        },
        ToolView {
            name: "unlock_file"@,
            description: "Release your exclusive lock on a file if it is no longer needed or application is complete. Note: agent_id is used for coordination tracking only and is not cryptographically verified."@,
            properties: unlock_file_arguments(),
        },
        ToolView {
            name: "grep"@,
            description: "Token-optimized codebase search. Wraps ripgrep with smart grouping and truncation to save context tokens. Groups matches by file and strips redundant whitespace."@,
            properties: grep_arguments(),
        },
        ToolView {
            name: "ls"@,
            description: "Noise-filtered directory listing. Auto-excludes artifact directories (node_modules, target, .next, etc.) and returns a compact tree structure to save tokens."@,
            properties: ls_arguments(),
        },
        ToolView {
            name: "find_symbol"@,
            description: "Fast symbol lookup across the whole project. Returns the file and line number where a function, struct, or class is defined. Uses an in-memory index built on demand."@,
            properties: find_symbol_arguments(),
        },
        ToolView {
            name: "get_co_changes"@,
            description: "Get file co-change relationships for the project. Returns groups of files that are frequently modified together in recent commits or fast_apply sessions, helping agents understand dependencies."@,
            properties: get_co_changes_arguments(),
        },
    ]
}

/// Lists the tools that are offered.
pub fn tool_list() -> (r: Vec<Tool>)
    ensures
        tool_views(r@) == catalog(),
{
    let mut r: Vec<Tool> = Vec::new();
    r.push(
        Tool {
            name: text::copy("surgical_read"),
            description: text::copy(
                "Read a file in 'full', 'skeleton', or 'compressed' mode. Skeleton mode extracts only signatures (signatures only). Compressed mode is a full file read with all comments removed using tree-sitter. Reduces token usage while remaining semantically lossless.",
            ),
            properties: surgical_read_properties(),
        },
    );
    r.push(
        Tool {
            name: text::copy("fast_apply"),
            description: text::copy(
                "Apply surgical line replacements to a file without rewriting it entirely. Validates line numbers before applying. Hunks are applied bottom-up for correctness.",
            ),
            properties: fast_apply_properties(),
        },
    );
    r.push(
        Tool {
            name: text::copy("store_memory"),
            description: text::copy(
                "Store a memory entry in the embedded SurrealDB. Call this when you learn something important about a project — decisions, architecture patterns, gotchas. The agent can recall these in future sessions.",
            ),
            properties: store_memory_properties(),
        },
    );
    r.push(
        Tool {
            name: text::copy("recall_memory"),
            description: text::copy(
                "Search stored memories using hybrid vector+BM25 search (or BM25 fallback), filtered by project. Call this at the start of any task to retrieve prior decisions and context. Max 50 results.",
            ),
            properties: recall_memory_properties(),
        },
    );
    r.push(
        Tool {
            name: text::copy("record_decision"),
            description: text::copy(
                "Record an architectural decision to the memory store, linking it to the files it governs. If a decision with the same text already exists for this project, its context and governed files are updated but confidence is preserved. Call confirm_decision to explicitly restore confidence to 1.0.",
            ),
            properties: record_decision_properties(),
        },
    );
    r.push(
        Tool {
            name: text::copy("get_why"),
            description: text::copy(
                "Get architectural decisions governing the given files. Use before modifying complex files to avoid breaking established patterns.",
            ),
            properties: get_why_properties(),
        },
    );
    r.push(
        Tool {
            name: text::copy("confirm_decision"),
            description: text::copy(
                "Confirm that an existing decision is still valid, restoring its confidence score to 1.0.",
            ),
            properties: confirm_decision_properties(),
        },
    );
    r.push(
        Tool {
            name: text::copy("pre_push_check"),
            description: text::copy(
                "Run pre-push validation checks defined in .klaar/targets.toml for a given target (e.g. 'production'). Runs checks sequentially; stops on first failure. Times out after 120s per check. Optionally runs `but validate` if GitButler CLI is present.",
            ),
            properties: pre_push_check_properties(),
        },
    );
    r.push(
        Tool {
            name: text::copy("lock_file"),
            description: text::copy(
                "Claim exclusive modification rights for a file tied to your agent ID. Required prior to calling fast_apply.",
            ),
            properties: lock_file_properties(),
        },
    );
    r.push(
        Tool {
            name: text::copy("unlock_file"),
            description: text::copy(
                "Release your exclusive lock on a file if it is no longer needed or application is complete. Note: agent_id is used for coordination tracking only and is not cryptographically verified.",
            ),
            properties: unlock_file_properties(),
        },
    );
    r.push(
        Tool {
            name: text::copy("grep"),
            description: text::copy(
                "Token-optimized codebase search. Wraps ripgrep with smart grouping and truncation to save context tokens. Groups matches by file and strips redundant whitespace.",
            ),
            properties: grep_properties(),
        },
    );
    r.push(
        Tool {
            name: text::copy("ls"),
            description: text::copy(
                "Noise-filtered directory listing. Auto-excludes artifact directories (node_modules, target, .next, etc.) and returns a compact tree structure to save tokens.",
            ),
            properties: ls_properties(),
        },
    );
    r.push(
        Tool {
            name: text::copy("find_symbol"),
            description: text::copy(
                "Fast symbol lookup across the whole project. Returns the file and line number where a function, struct, or class is defined. Uses an in-memory index built on demand.",
            ),
            properties: find_symbol_properties(),
        },
    );
    r.push(
        Tool {
            name: text::copy("get_co_changes"),
            description: text::copy(
                "Get file co-change relationships for the project. Returns groups of files that are frequently modified together in recent commits or fast_apply sessions, helping agents understand dependencies.",
            ),
            properties: get_co_changes_properties(),
        },
    );
    assert(tool_views(r@) =~= catalog());
    r
}

/// The tool that a name stands for.
#[derive(Clone, Copy, PartialEq, Eq, Structural, Debug)]
pub enum ToolName {
    SurgicalRead,
    FastApply,
    StoreMemory,
    RecallMemory,
    RecordDecision,
    GetWhy,
    ConfirmDecision,
    PrePushCheck,
    LockFile,
    UnlockFile,
    Grep,
    Ls,
    FindSymbol,
    GetCoChanges,
}

/// The tool that a name stands for, if it stands for one. Three tools have a second name.
pub open spec fn tool_named(name: Seq<char>) -> Option<ToolName> {
    if name == "surgical_read"@ {
        Some(ToolName::SurgicalRead)
    } else if name == "fast_apply"@ {
        Some(ToolName::FastApply)
    } else if name == "store_memory"@ {
        Some(ToolName::StoreMemory)
    } else if name == "recall_memory"@ {
        Some(ToolName::RecallMemory)
    } else if name == "record_decision"@ {
        Some(ToolName::RecordDecision)
    } else if name == "get_why"@ {
        Some(ToolName::GetWhy)
    } else if name == "confirm_decision"@ {
        Some(ToolName::ConfirmDecision)
    } else if name == "pre_push_check"@ {
        Some(ToolName::PrePushCheck)
    } else if name == "lock_file"@ {
        Some(ToolName::LockFile)
    } else if name == "unlock_file"@ {
        Some(ToolName::UnlockFile)
    } else if name == "grep"@ || name == "klaar_grep"@ {
        Some(ToolName::Grep)
    } else if name == "ls"@ || name == "klaar_ls"@ {
        Some(ToolName::Ls)
    } else if name == "find_symbol"@ || name == "klaar_find_symbol"@ {
        Some(ToolName::FindSymbol)
    } else if name == "get_co_changes"@ {
        Some(ToolName::GetCoChanges)
    } else {
        None
    }
}

/// Finds the tool that a name stands for, or the message for an unknown one.
pub fn dispatch(name: &str) -> (r: Result<ToolName, String>)
    ensures
        match tool_named(name@) {
            Some(t) => r == Ok::<ToolName, String>(t),
            None => r matches Err(e) && e@ == "Unknown tool: '"@ + name@ + "'"@,
        },
{
    if text::str_eq(name, "surgical_read") {
        Ok(ToolName::SurgicalRead)
    } else if text::str_eq(name, "fast_apply") {
        Ok(ToolName::FastApply)
    } else if text::str_eq(name, "store_memory") {
        Ok(ToolName::StoreMemory)
    } else if text::str_eq(name, "recall_memory") {
        Ok(ToolName::RecallMemory)
    } else if text::str_eq(name, "record_decision") {
        Ok(ToolName::RecordDecision)
    } else if text::str_eq(name, "get_why") {
        Ok(ToolName::GetWhy)
    } else if text::str_eq(name, "confirm_decision") {
        Ok(ToolName::ConfirmDecision)
    } else if text::str_eq(name, "pre_push_check") {
        Ok(ToolName::PrePushCheck)
    } else if text::str_eq(name, "lock_file") {
        Ok(ToolName::LockFile)
    } else if text::str_eq(name, "unlock_file") {
        Ok(ToolName::UnlockFile)
    } else if text::str_eq(name, "grep") || text::str_eq(name, "klaar_grep") {
        Ok(ToolName::Grep)
    } else if text::str_eq(name, "ls") || text::str_eq(name, "klaar_ls") {
        Ok(ToolName::Ls)
    } else if text::str_eq(name, "find_symbol") || text::str_eq(name, "klaar_find_symbol") {
        Ok(ToolName::FindSymbol)
    } else if text::str_eq(name, "get_co_changes") {
        Ok(ToolName::GetCoChanges)
    } else {
        let mut e = text::copy("Unknown tool: '");
        e.append(name);
        e.append("'");
        Err(e)
    }
}

spec fn place(t: ToolName) -> int {
    match t {
        ToolName::SurgicalRead => 0,
        ToolName::FastApply => 1,
        ToolName::StoreMemory => 2,
        ToolName::RecallMemory => 3,
        ToolName::RecordDecision => 4,
        ToolName::GetWhy => 5,
        ToolName::ConfirmDecision => 6,
        ToolName::PrePushCheck => 7,
        ToolName::LockFile => 8,
        ToolName::UnlockFile => 9,
        ToolName::Grep => 10,
        ToolName::Ls => 11,
        ToolName::FindSymbol => 12,
        ToolName::GetCoChanges => 13,
    }
}

/// The length and the first character of a name. They tell the names of the tools apart.
spec fn mark(name: Seq<char>) -> (nat, char) {
    (name.len(), name[0])
}

proof fn lemma_marks()
    ensures
        mark("surgical_read"@) == (13nat, 's'),
        mark("fast_apply"@) == (10nat, 'f'),
        mark("store_memory"@) == (12nat, 's'),
        mark("recall_memory"@) == (13nat, 'r'),
        mark("record_decision"@) == (15nat, 'r'),
        mark("get_why"@) == (7nat, 'g'),
        mark("confirm_decision"@) == (16nat, 'c'),
        mark("pre_push_check"@) == (14nat, 'p'),
        mark("lock_file"@) == (9nat, 'l'),
        mark("unlock_file"@) == (11nat, 'u'),
        mark("grep"@) == (4nat, 'g'),
        mark("ls"@) == (2nat, 'l'),
        mark("find_symbol"@) == (11nat, 'f'),
        mark("get_co_changes"@) == (14nat, 'g'),
        mark("klaar_grep"@) == (10nat, 'k'),
        mark("klaar_ls"@) == (8nat, 'k'),
        mark("klaar_find_symbol"@) == (17nat, 'k'),
{
    reveal_strlit("surgical_read");
    reveal_strlit("fast_apply");
    reveal_strlit("store_memory");
    reveal_strlit("recall_memory");
    reveal_strlit("record_decision");
    reveal_strlit("get_why");
    reveal_strlit("confirm_decision");
    reveal_strlit("pre_push_check");
    reveal_strlit("lock_file");
    reveal_strlit("unlock_file");
    reveal_strlit("grep");
    reveal_strlit("ls");
    reveal_strlit("find_symbol");
    reveal_strlit("get_co_changes");
    reveal_strlit("klaar_grep");
    reveal_strlit("klaar_ls");
    reveal_strlit("klaar_find_symbol");
}

proof fn lemma_routes(i: int)
    requires
        0 <= i < catalog().len(),
    ensures
        tool_named(catalog()[i].name) is Some,
        place(tool_named(catalog()[i].name)->0) == i,
{
    lemma_marks();
    assert(catalog().map_values(|t: ToolView| t.name) =~= seq![
        "surgical_read"@,
        "fast_apply"@,
        "store_memory"@,
        "recall_memory"@,
        "record_decision"@,
        "get_why"@,
        "confirm_decision"@,
        "pre_push_check"@,
        "lock_file"@,
        "unlock_file"@,
        "grep"@,
        "ls"@,
        "find_symbol"@,
        "get_co_changes"@,
    ]);
    assert(catalog()[i].name == catalog().map_values(|t: ToolView| t.name)[i]);
}

/// The names of the offered tools are different.
pub proof fn law_tool_names_are_different(i: int, j: int)
    requires
        0 <= i < j < catalog().len(),
    ensures
        catalog()[i].name != catalog()[j].name,
{
    lemma_routes(i);
    lemma_routes(j);
}

/// Every offered tool can be called by its name, and no two names of the list stand for the same
/// tool.
pub proof fn law_every_offered_tool_can_be_called(i: int, j: int)
    requires
        0 <= i < catalog().len(),
        0 <= j < catalog().len(),
        i != j,
    ensures
        tool_named(catalog()[i].name) is Some,
        tool_named(catalog()[i].name) != tool_named(catalog()[j].name),
{
    lemma_routes(i);
    lemma_routes(j);
}

// ---------------------------------------------------------------------------
// Laws
// ---------------------------------------------------------------------------

/// The names and kinds of arguments, and whether they are required.
pub open spec fn shape(properties: Seq<PropertyView>) -> Seq<(Seq<char>, Kind, bool)> {
    properties.map_values(|p: PropertyView| (p.name, p.kind, p.required))
}

/// The arguments that a tool takes.
pub open spec fn taken_by(tool: ToolName) -> Seq<(Seq<char>, Kind, bool)> {
    match tool {
        ToolName::SurgicalRead => seq![
            ("file_path"@, Kind::Text, true),
            ("mode"@, Kind::Text, true),
            ("agent_id"@, Kind::Text, true),
        ],
        ToolName::FastApply => seq![
            ("file_path"@, Kind::Text, true),
            ("hunks"@, Kind::HunkList, true),
            ("agent_id"@, Kind::Text, true),
        ],
        ToolName::StoreMemory => seq![
            ("key"@, Kind::Text, true),
            ("content"@, Kind::Text, true),
            ("tags"@, Kind::TextList, false),
            ("project"@, Kind::Text, true),
        ],
        ToolName::RecallMemory => seq![
            ("query"@, Kind::Text, true),
            ("project"@, Kind::Text, true),
            ("limit"@, Kind::Integer, false),
        ],
        ToolName::RecordDecision => seq![
            ("project"@, Kind::Text, true),
            ("decision"@, Kind::Text, true),
            ("context"@, Kind::Text, true),
            ("files"@, Kind::TextList, true),
        ],
        ToolName::GetWhy => seq![
            ("project"@, Kind::Text, true),
            ("files"@, Kind::TextList, true),
        ],
        ToolName::ConfirmDecision => seq![
            ("decision_id"@, Kind::Text, true),
            ("project"@, Kind::Text, true),
        ],
        ToolName::PrePushCheck => seq![
            ("project_path"@, Kind::Text, true),
            ("target"@, Kind::Text, true),
        ],
        ToolName::LockFile => seq![
            ("file_path"@, Kind::Text, true),
            ("agent_id"@, Kind::Text, true),
        ],
        ToolName::UnlockFile => seq![
            ("file_path"@, Kind::Text, true),
            ("agent_id"@, Kind::Text, true),
        ],
        ToolName::Grep => seq![
            ("query"@, Kind::Text, true),
            ("project_path"@, Kind::Text, true),
            ("case_insensitive"@, Kind::Boolean, false),
            ("include_glob"@, Kind::Text, false),
        ],
        ToolName::Ls => seq![
            ("project_path"@, Kind::Text, true),
            ("max_depth"@, Kind::Integer, false),
        ],
        ToolName::FindSymbol => seq![
            ("symbol"@, Kind::Text, true),
            ("project_path"@, Kind::Text, true),
        ],
        ToolName::GetCoChanges => seq![
            ("project"@, Kind::Text, true),
        ],
    }
}

/// Each offered tool lists the arguments that it takes.
pub proof fn law_tools_list_their_arguments(i: int)
    requires
        0 <= i < catalog().len(),
    ensures
        catalog().len() == 14,
        tool_named(catalog()[i].name) matches Some(t) && shape(catalog()[i].properties)
            == taken_by(t),
{
    lemma_routes(i);
    lemma_shapes();
}

proof fn lemma_shapes()
    ensures
        shape(catalog()[0].properties) == taken_by(ToolName::SurgicalRead),
        shape(catalog()[1].properties) == taken_by(ToolName::FastApply),
        shape(catalog()[2].properties) == taken_by(ToolName::StoreMemory),
        shape(catalog()[3].properties) == taken_by(ToolName::RecallMemory),
        shape(catalog()[4].properties) == taken_by(ToolName::RecordDecision),
        shape(catalog()[5].properties) == taken_by(ToolName::GetWhy),
        shape(catalog()[6].properties) == taken_by(ToolName::ConfirmDecision),
        shape(catalog()[7].properties) == taken_by(ToolName::PrePushCheck),
        shape(catalog()[8].properties) == taken_by(ToolName::LockFile),
        shape(catalog()[9].properties) == taken_by(ToolName::UnlockFile),
        shape(catalog()[10].properties) == taken_by(ToolName::Grep),
        shape(catalog()[11].properties) == taken_by(ToolName::Ls),
        shape(catalog()[12].properties) == taken_by(ToolName::FindSymbol),
        shape(catalog()[13].properties) == taken_by(ToolName::GetCoChanges),
{
    assert(shape(surgical_read_arguments()) =~= taken_by(ToolName::SurgicalRead));
    assert(shape(fast_apply_arguments()) =~= taken_by(ToolName::FastApply));
    assert(shape(store_memory_arguments()) =~= taken_by(ToolName::StoreMemory));
    assert(shape(recall_memory_arguments()) =~= taken_by(ToolName::RecallMemory));
    assert(shape(record_decision_arguments()) =~= taken_by(ToolName::RecordDecision));
    assert(shape(get_why_arguments()) =~= taken_by(ToolName::GetWhy));
    assert(shape(confirm_decision_arguments()) =~= taken_by(ToolName::ConfirmDecision));
    assert(shape(pre_push_check_arguments()) =~= taken_by(ToolName::PrePushCheck));
    assert(shape(lock_file_arguments()) =~= taken_by(ToolName::LockFile));
    assert(shape(unlock_file_arguments()) =~= taken_by(ToolName::UnlockFile));
    assert(shape(grep_arguments()) =~= taken_by(ToolName::Grep));
    assert(shape(ls_arguments()) =~= taken_by(ToolName::Ls));
    assert(shape(find_symbol_arguments()) =~= taken_by(ToolName::FindSymbol));
    assert(shape(get_co_changes_arguments()) =~= taken_by(ToolName::GetCoChanges));
}

/// A tool is called by the name under which it is offered, three also by a second name, and none
/// by any other name.
pub proof fn law_tools_are_called_by_their_names(name: Seq<char>)
    ensures
        tool_named(name) == Some(ToolName::SurgicalRead) <==> name == "surgical_read"@,
        tool_named(name) == Some(ToolName::FastApply) <==> name == "fast_apply"@,
        tool_named(name) == Some(ToolName::StoreMemory) <==> name == "store_memory"@,
        tool_named(name) == Some(ToolName::RecallMemory) <==> name == "recall_memory"@,
        tool_named(name) == Some(ToolName::RecordDecision) <==> name == "record_decision"@,
        tool_named(name) == Some(ToolName::GetWhy) <==> name == "get_why"@,
        tool_named(name) == Some(ToolName::ConfirmDecision) <==> name == "confirm_decision"@,
        tool_named(name) == Some(ToolName::PrePushCheck) <==> name == "pre_push_check"@,
        tool_named(name) == Some(ToolName::LockFile) <==> name == "lock_file"@,
        tool_named(name) == Some(ToolName::UnlockFile) <==> name == "unlock_file"@,
        tool_named(name) == Some(ToolName::Grep) <==> (name == "grep"@ || name == "klaar_grep"@),
        tool_named(name) == Some(ToolName::Ls) <==> (name == "ls"@ || name == "klaar_ls"@),
        tool_named(name) == Some(ToolName::FindSymbol) <==> (name == "find_symbol"@ || name == "klaar_find_symbol"@),
        tool_named(name) == Some(ToolName::GetCoChanges) <==> name == "get_co_changes"@,
{
    lemma_marks();
}

/// What is listed of an argument that can be left out is what the tool goes by.
pub proof fn law_presets_are_the_limits_of_the_tools()
    ensures
        recall_memory_arguments()[2].preset == Preset::Number(knowledge::RECALL_LIMIT_DEFAULT),
        recall_memory_arguments()[2].maximum == Some(knowledge::RECALL_LIMIT_MAX),
        ls_arguments()[1].preset == Preset::Number(ls::DEFAULT_MAX_DEPTH as u64),
        ls_arguments()[1].maximum is None,
        grep_arguments()[2].preset == Preset::Flag(true),
{
}

/// The modes that are listed are those in which a file can be read.
pub proof fn law_listed_modes_can_be_read(
    mode: Seq<char>,
    file_path: Seq<char>,
    canonical_path: Seq<char>,
    source: Seq<char>,
)
    ensures
        surgical_read_arguments()[1].choices.contains(mode) <==> read::read_output(
            file_path,
            canonical_path,
            mode,
            source,
        ) is Some,
{
    let choices = surgical_read_arguments()[1].choices;
    assert(choices[0] == "skeleton"@ && choices[1] == "full"@ && choices[2] == "compressed"@);
}

/// A line replacement has two line numbers and a text, all required.
pub proof fn law_a_line_replacement_has_three_arguments()
    ensures
        shape(hunk_arguments()) == seq![
            ("line_start"@, Kind::Integer, true),
            ("line_end"@, Kind::Integer, true),
            ("new_content"@, Kind::Text, true),
        ],
{
    assert(shape(hunk_arguments()) =~= seq![
        ("line_start"@, Kind::Integer, true),
        ("line_end"@, Kind::Integer, true),
        ("new_content"@, Kind::Text, true),
    ]);
}

/// Tools and their arguments are listed one by one.
pub proof fn law_tools_are_listed_one_by_one(tools: Seq<Tool>, i: int, k: int)
    requires
        0 <= i < tools.len(),
        0 <= k < tools[i].properties@.len(),
    ensures
        tool_views(tools).len() == tools.len(),
        tool_views(tools)[i].name == tools[i].name@,
        tool_views(tools)[i].description == tools[i].description@,
        tool_views(tools)[i].properties.len() == tools[i].properties@.len(),
        tool_views(tools)[i].properties[k].name == tools[i].properties@[k].name@,
        tool_views(tools)[i].properties[k].kind == tools[i].properties@[k].kind,
        tool_views(tools)[i].properties[k].required == tools[i].properties@[k].required,
{
}

} // verus!
