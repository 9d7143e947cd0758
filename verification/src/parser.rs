//! Syntax-aware views of source files: signatures only, comments removed, or a list of symbols.

use crate::paths;
use crate::text;
use vstd::prelude::*;

verus! {

// ---------------------------------------------------------------------------
// Languages
// ---------------------------------------------------------------------------

/// A language with a grammar.
#[derive(Clone, Copy, PartialEq, Eq, Structural, Debug)]
pub enum Lang {
    Rust,
    TypeScript,
    Python,
    Go,
}

/// The language that a file extension stands for.
pub open spec fn language_of(extension: Option<Seq<char>>) -> Option<Lang> {
    match extension {
        None => None,
        Some(e) => if e == "rs"@ {
            Some(Lang::Rust)
        } else if e == "ts"@ || e == "tsx"@ {
            Some(Lang::TypeScript)
        } else if e == "py"@ {
            Some(Lang::Python)
        } else if e == "go"@ {
            Some(Lang::Go)
        } else {
            None
        },
    }
}

/// Finds the language of a file by its extension.
pub fn detect_language(path: &str) -> (r: Option<Lang>)
    ensures
        r == language_of(paths::extension_of(path@)),
{
    match paths::extension(path) {
        None => None,
        Some(e) => {
            let e = e.as_str();
            if text::str_eq(e, "rs") {
                Some(Lang::Rust)
            } else if text::str_eq(e, "ts") || text::str_eq(e, "tsx") {
                Some(Lang::TypeScript)
            } else if text::str_eq(e, "py") {
                Some(Lang::Python)
            } else if text::str_eq(e, "go") {
                Some(Lang::Go)
            } else {
                None
            }
        },
    }
}

// ---------------------------------------------------------------------------
// Syntax trees
// ---------------------------------------------------------------------------

/// A node of a syntax tree. A tree is the list of its nodes, each before its children, with the
/// root at depth zero.
pub struct SyntaxNode {
    pub depth: u32,
    pub kind: String,
    pub start_byte: u32,
    pub end_byte: u32,
    pub start_row: u32,
    pub end_row: u32,
}

/// What a node holds.
pub struct NodeView {
    pub depth: nat,
    pub kind: Seq<char>,
    pub start_byte: nat,
    pub end_byte: nat,
    pub start_row: nat,
    pub end_row: nat,
}

impl View for SyntaxNode {
    type V = NodeView;

    open spec fn view(&self) -> NodeView {
        NodeView {
            depth: self.depth as nat,
            kind: self.kind@,
            start_byte: self.start_byte as nat,
            end_byte: self.end_byte as nat,
            start_row: self.start_row as nat,
            end_row: self.end_row as nat,
        }
    }
}

/// What a list of nodes holds.
pub open spec fn node_views(v: Seq<SyntaxNode>) -> Seq<NodeView> {
    Seq::new(v.len(), |i: int| v[i]@)
}

/// What an optional list of nodes holds.
pub open spec fn tree_view(t: Option<Vec<SyntaxNode>>) -> Option<Seq<NodeView>> {
    match t {
        Some(v) => Some(node_views(v@)),
        None => None,
    }
}

/// The nodes of the tree that `tree_sitter::Parser::parse` gives for a Rust source.
pub uninterp spec fn rust_tree(source: Seq<char>) -> Option<Seq<NodeView>>;

/// The nodes of the tree that `tree_sitter::Parser::parse` gives for a TypeScript source.
pub uninterp spec fn typescript_tree(source: Seq<char>) -> Option<Seq<NodeView>>;

/// The nodes of the tree that `tree_sitter::Parser::parse` gives for a Python source.
pub uninterp spec fn python_tree(source: Seq<char>) -> Option<Seq<NodeView>>;

/// The nodes of the tree that `tree_sitter::Parser::parse` gives for a Go source.
pub uninterp spec fn go_tree(source: Seq<char>) -> Option<Seq<NodeView>>;

/// Calls `tree_sitter::Parser::parse` with the grammar of `tree_sitter_rust` and walks the tree
/// with a `TreeCursor`, parents before children. The tree depends on the source alone: the
/// parser is new and has neither a timeout nor a cancellation flag.
#[verifier::external_body]
fn parse_rust(source: &str) -> (r: Option<Vec<SyntaxNode>>)
    ensures
        tree_view(r) == rust_tree(source@),
{
    let mut parser = tree_sitter::Parser::new();
    parser.set_language(&tree_sitter_rust::language()).expect("tree-sitter language init failed");
    let tree = parser.parse(source, None)?;
    let mut cursor = tree.walk();
    let mut nodes = Vec::new();
    loop {
        let n = cursor.node();
        nodes.push(SyntaxNode { depth: cursor.depth(), kind: n.kind().to_string(),
            start_byte: n.start_byte() as u32, end_byte: n.end_byte() as u32,
            start_row: n.start_position().row as u32, end_row: n.end_position().row as u32 });
        if !cursor.goto_first_child() {
            while !cursor.goto_next_sibling() { if !cursor.goto_parent() { return Some(nodes); } }
        }
    }
}

/// Calls `tree_sitter::Parser::parse` with the grammar of `tree_sitter_typescript` and walks the
/// tree with a `TreeCursor`, parents before children. The tree depends on the source alone.
#[verifier::external_body]
fn parse_typescript(source: &str) -> (r: Option<Vec<SyntaxNode>>)
    ensures
        tree_view(r) == typescript_tree(source@),
{
    let mut parser = tree_sitter::Parser::new();
    parser.set_language(&tree_sitter_typescript::language_typescript()).expect("tree-sitter language init failed");
    let tree = parser.parse(source, None)?;
    let mut cursor = tree.walk();
    let mut nodes = Vec::new();
    loop {
        let n = cursor.node();
        nodes.push(SyntaxNode { depth: cursor.depth(), kind: n.kind().to_string(),
            start_byte: n.start_byte() as u32, end_byte: n.end_byte() as u32,
            start_row: n.start_position().row as u32, end_row: n.end_position().row as u32 });
        if !cursor.goto_first_child() {
            while !cursor.goto_next_sibling() { if !cursor.goto_parent() { return Some(nodes); } }
        }
    }
}

/// Calls `tree_sitter::Parser::parse` with the grammar of `tree_sitter_python` and walks the
/// tree with a `TreeCursor`, parents before children. The tree depends on the source alone.
#[verifier::external_body]
fn parse_python(source: &str) -> (r: Option<Vec<SyntaxNode>>)
    ensures
        tree_view(r) == python_tree(source@),
{
    let mut parser = tree_sitter::Parser::new();
    parser.set_language(&tree_sitter_python::language()).expect("tree-sitter language init failed");
    let tree = parser.parse(source, None)?;
    let mut cursor = tree.walk();
    let mut nodes = Vec::new();
    loop {
        let n = cursor.node();
        nodes.push(SyntaxNode { depth: cursor.depth(), kind: n.kind().to_string(),
            start_byte: n.start_byte() as u32, end_byte: n.end_byte() as u32,
            start_row: n.start_position().row as u32, end_row: n.end_position().row as u32 });
        if !cursor.goto_first_child() {
            while !cursor.goto_next_sibling() { if !cursor.goto_parent() { return Some(nodes); } }
        }
    }
}

/// Calls `tree_sitter::Parser::parse` with the grammar of `tree_sitter_go` and walks the tree
/// with a `TreeCursor`, parents before children. The tree depends on the source alone.
#[verifier::external_body]
fn parse_go(source: &str) -> (r: Option<Vec<SyntaxNode>>)
    ensures
        tree_view(r) == go_tree(source@),
{
    let mut parser = tree_sitter::Parser::new();
    parser.set_language(&tree_sitter_go::language()).expect("tree-sitter language init failed");
    let tree = parser.parse(source, None)?;
    let mut cursor = tree.walk();
    let mut nodes = Vec::new();
    loop {
        let n = cursor.node();
        nodes.push(SyntaxNode { depth: cursor.depth(), kind: n.kind().to_string(),
            start_byte: n.start_byte() as u32, end_byte: n.end_byte() as u32,
            start_row: n.start_position().row as u32, end_row: n.end_position().row as u32 });
        if !cursor.goto_first_child() {
            while !cursor.goto_next_sibling() { if !cursor.goto_parent() { return Some(nodes); } }
        }
    }
}

/// The tree of a source in a language.
pub open spec fn tree_of(source: Seq<char>, lang: Lang) -> Option<Seq<NodeView>> {
    match lang {
        Lang::Rust => rust_tree(source),
        Lang::TypeScript => typescript_tree(source),
        Lang::Python => python_tree(source),
        Lang::Go => go_tree(source),
    }
}

/// Parses a source.
pub fn parse_source(source: &str, lang: Lang) -> (r: Option<Vec<SyntaxNode>>)
    ensures
        tree_view(r) == tree_of(source@, lang),
{
    match lang {
        Lang::Rust => parse_rust(source),
        Lang::TypeScript => parse_typescript(source),
        Lang::Python => parse_python(source),
        Lang::Go => parse_go(source),
    }
}

/// Whether node `a` stands above node `i`: everything after `a` up to `i` is deeper than `a`.
pub open spec fn is_ancestor(ns: Seq<NodeView>, a: int, i: int) -> bool {
    &&& 0 <= a < i < ns.len()
    &&& forall|j: int| a < j <= i ==> (#[trigger] ns[j]).depth > ns[a].depth
}

fn subtree_end(nodes: &Vec<SyntaxNode>, i: usize) -> (e: usize)
    requires
        i < nodes.len(),
    ensures
        i < e <= nodes@.len(),
        forall|j: int| i < j < e ==> (#[trigger] node_views(nodes@)[j]).depth > node_views(
            nodes@,
        )[i as int].depth,
        e < nodes@.len() ==> node_views(nodes@)[e as int].depth <= node_views(
            nodes@,
        )[i as int].depth,
{
    let ghost ns = node_views(nodes@);
    let mut e: usize = i + 1;
    while e < nodes.len() && nodes[e].depth > nodes[i].depth
        invariant
            i < e <= nodes@.len(),
            ns == node_views(nodes@),
            forall|j: int| i < j < e ==> (#[trigger] ns[j]).depth > ns[i as int].depth,
        decreases nodes@.len() - e,
    {
        e += 1;
    }
    e
}

// ---------------------------------------------------------------------------
// Definitions
// ---------------------------------------------------------------------------

/// The kinds of nodes that define something.
pub open spec fn defines(lang: Lang, k: Seq<char>) -> bool {
    match lang {
        Lang::Rust => k == "function_item"@ || k == "struct_item"@ || k == "enum_item"@ || k
            == "trait_item"@ || k == "type_item"@ || k == "const_item"@ || k == "static_item"@ || k
            == "use_declaration"@,
        Lang::TypeScript => k == "function_declaration"@ || k == "export_statement"@ || k
            == "class_declaration"@ || k == "interface_declaration"@ || k
            == "type_alias_declaration"@ || k == "enum_declaration"@ || k == "lexical_declaration"@,
        Lang::Python => k == "function_definition"@ || k == "class_definition"@ || k
            == "decorated_definition"@,
        Lang::Go => k == "function_declaration"@ || k == "method_declaration"@ || k
            == "type_declaration"@ || k == "var_declaration"@ || k == "const_declaration"@,
    }
}

/// Whether a kind of node defines something.
pub fn is_definition_node(kind: &str, lang: Lang) -> (r: bool)
    ensures
        r == defines(lang, kind@),
{
    match lang {
        Lang::Rust => text::str_eq(kind, "function_item") || text::str_eq(kind, "struct_item")
            || text::str_eq(kind, "enum_item") || text::str_eq(kind, "trait_item")
            || text::str_eq(kind, "type_item") || text::str_eq(kind, "const_item")
            || text::str_eq(kind, "static_item") || text::str_eq(kind, "use_declaration"),
        Lang::TypeScript => text::str_eq(kind, "function_declaration") || text::str_eq(
            kind,
            "export_statement",
        ) || text::str_eq(kind, "class_declaration") || text::str_eq(kind, "interface_declaration")
            || text::str_eq(kind, "type_alias_declaration") || text::str_eq(
            kind,
            "enum_declaration",
        ) || text::str_eq(kind, "lexical_declaration"),
        Lang::Python => text::str_eq(kind, "function_definition") || text::str_eq(
            kind,
            "class_definition",
        ) || text::str_eq(kind, "decorated_definition"),
        Lang::Go => text::str_eq(kind, "function_declaration") || text::str_eq(
            kind,
            "method_declaration",
        ) || text::str_eq(kind, "type_declaration") || text::str_eq(kind, "var_declaration")
            || text::str_eq(kind, "const_declaration"),
    }
}

/// The kinds of nodes that are looked into.
pub open spec fn contains_definitions(lang: Lang, k: Seq<char>) -> bool {
    match lang {
        Lang::Rust => k == "impl_item"@ || k == "mod_item"@ || k == "source_file"@,
        Lang::TypeScript => k == "program"@ || k == "module"@,
        Lang::Python => k == "module"@,
        Lang::Go => k == "source_file"@,
    }
}

/// Whether a kind of node is looked into.
pub fn is_container_node(kind: &str, lang: Lang) -> (r: bool)
    ensures
        r == contains_definitions(lang, kind@),
{
    match lang {
        Lang::Rust => text::str_eq(kind, "impl_item") || text::str_eq(kind, "mod_item")
            || text::str_eq(kind, "source_file"),
        Lang::TypeScript => text::str_eq(kind, "program") || text::str_eq(kind, "module"),
        Lang::Python => text::str_eq(kind, "module"),
        Lang::Go => text::str_eq(kind, "source_file"),
    }
}

/// The kinds of nodes that are bodies.
pub open spec fn is_body(lang: Lang, k: Seq<char>) -> bool {
    match lang {
        Lang::Rust => k == "block"@ || k == "declaration_list"@ || k == "enum_variant_list"@ || k
            == "field_declaration_list"@,
        Lang::TypeScript => k == "statement_block"@ || k == "class_body"@,
        Lang::Python => k == "block"@,
        Lang::Go => k == "block"@,
    }
}

fn is_body_node(kind: &str, lang: Lang) -> (r: bool)
    ensures
        r == is_body(lang, kind@),
{
    match lang {
        Lang::Rust => text::str_eq(kind, "block") || text::str_eq(kind, "declaration_list")
            || text::str_eq(kind, "enum_variant_list") || text::str_eq(
            kind,
            "field_declaration_list",
        ),
        Lang::TypeScript => text::str_eq(kind, "statement_block") || text::str_eq(
            kind,
            "class_body",
        ),
        Lang::Python => text::str_eq(kind, "block"),
        Lang::Go => text::str_eq(kind, "block"),
    }
}

/// The kinds of nodes inside a definition that have its name and its body: the definition or the
/// declarator that it wraps, and for bodies also the function or class that is its value.
pub open spec fn carries(lang: Lang, k: Seq<char>, body: bool) -> bool {
    match lang {
        Lang::Rust => false,
        Lang::TypeScript => k == "function_declaration"@ || k == "class_declaration"@ || k
            == "interface_declaration"@ || k == "type_alias_declaration"@ || k
            == "enum_declaration"@ || k == "lexical_declaration"@ || k == "variable_declaration"@
            || k == "variable_declarator"@ || k == "abstract_class_declaration"@ || k
            == "generator_function_declaration"@ || k == "function_signature"@ || k
            == "ambient_declaration"@ || k == "internal_module"@ || k == "module"@ || (body && (k
            == "arrow_function"@ || k == "function_expression"@ || k == "generator_function"@ || k
            == "class"@)),
        Lang::Python => k == "function_definition"@ || k == "class_definition"@,
        Lang::Go => k == "var_spec"@ || k == "var_spec_list"@ || k == "const_spec"@ || k
            == "type_spec"@ || k == "type_alias"@ || (body && (k == "expression_list"@ || k
            == "func_literal"@)),
    }
}

fn is_carrier(kind: &str, lang: Lang, body: bool) -> (r: bool)
    ensures
        r == carries(lang, kind@, body),
{
    match lang {
        Lang::Rust => false,
        Lang::TypeScript => text::str_eq(kind, "function_declaration") || text::str_eq(
            kind,
            "class_declaration",
        ) || text::str_eq(kind, "interface_declaration") || text::str_eq(
            kind,
            "type_alias_declaration",
        ) || text::str_eq(kind, "enum_declaration") || text::str_eq(kind, "lexical_declaration")
            || text::str_eq(kind, "variable_declaration") || text::str_eq(
            kind,
            "variable_declarator",
        ) || text::str_eq(kind, "abstract_class_declaration") || text::str_eq(
            kind,
            "generator_function_declaration",
        ) || text::str_eq(kind, "function_signature") || text::str_eq(kind, "ambient_declaration")
            || text::str_eq(kind, "internal_module") || text::str_eq(kind, "module") || (body && (
        text::str_eq(kind, "arrow_function") || text::str_eq(kind, "function_expression")
            || text::str_eq(kind, "generator_function") || text::str_eq(kind, "class"))),
        Lang::Python => text::str_eq(kind, "function_definition") || text::str_eq(
            kind,
            "class_definition",
        ),
        Lang::Go => text::str_eq(kind, "var_spec") || text::str_eq(kind, "var_spec_list")
            || text::str_eq(kind, "const_spec") || text::str_eq(kind, "type_spec")
            || text::str_eq(kind, "type_alias") || (body && (text::str_eq(kind, "expression_list")
            || text::str_eq(kind, "func_literal"))),
    }
}

/// Whether node `i` belongs to the definition `a` itself: every node between them carries its
/// name or body.
pub open spec fn is_inner(ns: Seq<NodeView>, lang: Lang, body: bool, a: int, i: int) -> bool {
    &&& is_ancestor(ns, a, i)
    &&& forall|b: int| a < b && #[trigger] is_ancestor(ns, b, i) ==> carries(lang, ns[b].kind, body)
}

/// Behind a node that belongs to the definition, and behind what it does not carry, comes the
/// next node that does, or the end of the definition.
proof fn lemma_next_inner(ns: Seq<NodeView>, lang: Lang, body: bool, a: int, i: int, e: int)
    requires
        is_inner(ns, lang, body, a, i),
        i < e <= ns.len(),
        forall|j: int| i < j < e ==> (#[trigger] ns[j]).depth > ns[i].depth,
        carries(lang, ns[i].kind, body) ==> e == i + 1,
        !carries(lang, ns[i].kind, body) && e < ns.len() ==> ns[e].depth <= ns[i].depth,
    ensures
        e < ns.len() && ns[e].depth > ns[a].depth ==> is_inner(ns, lang, body, a, e),
        forall|j: int| i < j < e ==> (#[trigger] ns[j]).depth > ns[a].depth && !is_inner(
            ns,
            lang,
            body,
            a,
            j,
        ),
{
    assert(ns[i].depth > ns[a].depth);
    assert forall|j: int| i < j < e implies (#[trigger] ns[j]).depth > ns[a].depth && !is_inner(
        ns,
        lang,
        body,
        a,
        j,
    ) by {
        assert(is_ancestor(ns, i, j));
    }
    if e < ns.len() && ns[e].depth > ns[a].depth {
        assert forall|j: int| a < j <= e implies (#[trigger] ns[j]).depth > ns[a].depth by {
            if j <= i {
                assert(ns[j].depth > ns[a].depth);
            }
        }
        assert(is_ancestor(ns, a, e));
        assert forall|b: int| a < b && #[trigger] is_ancestor(ns, b, e) implies carries(
            lang,
            ns[b].kind,
            body,
        ) by {
            assert(ns[e].depth > ns[b].depth);
            if b > i {
                assert(ns[b].depth > ns[i].depth);
            } else if b < i {
                assert(is_ancestor(ns, b, i));
            }
        }
    }
}

/// The kinds of nodes that hold what stands between the brackets of a container.
pub open spec fn is_block(lang: Lang, k: Seq<char>) -> bool {
    lang is Rust && k == "declaration_list"@
}

/// Whether definitions below a node are reported: the node is the root or a container, and is
/// not a definition itself. With `blocks`, what stands between the brackets of a container is
/// reported too.
pub open spec fn is_open(lang: Lang, blocks: bool, n: NodeView) -> bool {
    !defines(lang, n.kind) && (contains_definitions(lang, n.kind) || n.depth == 0 || (blocks
        && is_block(lang, n.kind)))
}

/// Whether a node is reported: it defines something, and everything above it is open.
pub open spec fn is_reported(ns: Seq<NodeView>, lang: Lang, blocks: bool, i: int) -> bool {
    &&& 0 <= i < ns.len()
    &&& defines(lang, ns[i].kind)
    &&& forall|a: int| #[trigger] is_ancestor(ns, a, i) ==> is_open(lang, blocks, ns[a])
}

/// The reported nodes before `n`, in order.
pub open spec fn reported(ns: Seq<NodeView>, lang: Lang, blocks: bool, n: nat) -> Seq<int>
    decreases n,
{
    if n == 0 {
        Seq::empty()
    } else if is_reported(ns, lang, blocks, n - 1) {
        reported(ns, lang, blocks, (n - 1) as nat).push(n - 1)
    } else {
        reported(ns, lang, blocks, (n - 1) as nat)
    }
}

/// A definition inside another definition is not reported.
pub proof fn law_nested_definitions_are_not_reported(
    ns: Seq<NodeView>,
    lang: Lang,
    blocks: bool,
    outer: int,
    inner: int,
)
    requires
        is_ancestor(ns, outer, inner),
        defines(lang, ns[outer].kind),
    ensures
        !is_reported(ns, lang, blocks, inner),
{
}

/// A definition directly below the root is reported.
pub proof fn law_top_level_definitions_are_reported(
    ns: Seq<NodeView>,
    lang: Lang,
    blocks: bool,
    i: int,
)
    requires
        0 < i < ns.len(),
        defines(lang, ns[i].kind),
        ns[i].depth == 1,
        ns[0].depth == 0,
        forall|j: int| 0 < j < ns.len() ==> (#[trigger] ns[j]).depth > 0,
        !defines(lang, ns[0].kind),
    ensures
        is_reported(ns, lang, blocks, i),
{
    assert forall|a: int| #[trigger] is_ancestor(ns, a, i) implies is_open(lang, blocks, ns[a]) by {
        assert(ns[i].depth > ns[a].depth);
        if a > 0 {
            assert(ns[a].depth > 0);
        }
    }
}

proof fn lemma_skipped(ns: Seq<NodeView>, lang: Lang, blocks: bool, i: int, e: int)
    requires
        0 <= i < e <= ns.len(),
        forall|j: int| i < j < e ==> (#[trigger] ns[j]).depth > ns[i].depth,
        !is_open(lang, blocks, ns[i]),
    ensures
        reported(ns, lang, blocks, e as nat) == reported(ns, lang, blocks, (i + 1) as nat),
    decreases e - i,
{
    if e > i + 1 {
        lemma_skipped(ns, lang, blocks, i, e - 1);
        assert(is_ancestor(ns, i, e - 1));
        assert(!is_reported(ns, lang, blocks, e - 1));
    }
}

fn is_block_node(kind: &str, lang: Lang) -> (r: bool)
    ensures
        r == is_block(lang, kind@),
{
    match lang {
        Lang::Rust => text::str_eq(kind, "declaration_list"),
        _ => false,
    }
}

/// Finds the reported definitions of a tree.
fn find_definitions(nodes: &Vec<SyntaxNode>, lang: Lang, blocks: bool) -> (r: Vec<usize>)
    ensures
        r@.len() == reported(node_views(nodes@), lang, blocks, nodes@.len()).len(),
        forall|k: int|
            0 <= k < r@.len() ==> (#[trigger] r@[k]) < nodes@.len() && r@[k] == reported(
                node_views(nodes@),
                lang,
                blocks,
                nodes@.len(),
            )[k],
{
    let ghost ns = node_views(nodes@);
    let mut r: Vec<usize> = Vec::new();
    let mut i: usize = 0;
    while i < nodes.len()
        invariant
            i <= nodes@.len(),
            ns == node_views(nodes@),
            forall|a: int| #[trigger] is_ancestor(ns, a, i as int) ==> is_open(lang, blocks, ns[a]),
            r@.len() == reported(ns, lang, blocks, i as nat).len(),
            forall|k: int|
                0 <= k < r@.len() ==> (#[trigger] r@[k]) < nodes@.len() && r@[k] == reported(
                    ns,
                    lang,
                    blocks,
                    i as nat,
                )[k],
        decreases nodes@.len() - i,
    {
        let ghost here = i;
        assert(ns[i as int] == nodes@[i as int]@);
        let def = is_definition_node(nodes[i].kind.as_str(), lang);
        if def {
            assert(is_reported(ns, lang, blocks, i as int));
            r.push(i);
        } else {
            assert(!is_reported(ns, lang, blocks, i as int));
        }
        if !def && (is_container_node(nodes[i].kind.as_str(), lang) || nodes[i].depth == 0 || (
        blocks && is_block_node(nodes[i].kind.as_str(), lang))) {
            i += 1;
            proof {
                assert forall|a: int| #[trigger] is_ancestor(ns, a, i as int) implies is_open(
                    lang,
                    blocks,
                    ns[a],
                ) by {
                    if a < here {
                        assert(is_ancestor(ns, a, here as int));
                    }
                }
            }
        } else {
            i = subtree_end(nodes, i);
            proof {
                lemma_skipped(ns, lang, blocks, here as int, i as int);
                assert forall|a: int| #[trigger] is_ancestor(ns, a, i as int) implies is_open(
                    lang,
                    blocks,
                    ns[a],
                ) by {
                    assert(ns[i as int].depth > ns[a].depth);
                    assert(a < here) by {
                        if a > here {
                            assert(ns[a].depth > ns[here as int].depth);
                        }
                    }
                    assert(is_ancestor(ns, a, here as int));
                }
            }
        }
    }
    r
}

// ---------------------------------------------------------------------------
// Byte positions
// ---------------------------------------------------------------------------

/// The character position that stands at a byte offset, if one does.
pub open spec fn position_at(s: Seq<char>, byte: nat) -> Option<int> {
    if exists|i: int| 0 <= i <= s.len() && text::byte_len(#[trigger] s.take(i)) == byte {
        Some(choose|i: int| 0 <= i <= s.len() && text::byte_len(#[trigger] s.take(i)) == byte)
    } else {
        None
    }
}

/// The text between two byte offsets, if both stand between characters.
pub open spec fn text_between(s: Seq<char>, from: nat, to: nat) -> Option<Seq<char>> {
    match (position_at(s, from), position_at(s, to)) {
        (Some(a), Some(b)) => if a <= b {
            Some(s.subrange(a, b))
        } else {
            None
        },
        _ => None,
    }
}

/// A character list with the byte offset of each position.
struct Offsets {
    chars: Vec<char>,
    at: Vec<usize>,
}

impl Offsets {
    spec fn wf(self, s: Seq<char>) -> bool {
        &&& self.chars@ == s
        &&& self.at@.len() == s.len() + 1
        &&& forall|i: int|
            0 <= i <= s.len() ==> (#[trigger] self.at@[i]) == text::byte_len(s.take(i))
        &&& forall|i: int, j: int|
            0 <= i < j <= s.len() ==> (#[trigger] self.at@[i]) < (#[trigger] self.at@[j])
    }

    fn of(source: &str) -> (r: Offsets)
        ensures
            r.wf(source@),
    {
        let total: usize = text::byte_count(source);
        let chars = text::chars_of(source);
        let mut at: Vec<usize> = Vec::new();
        let mut i: usize = 0;
        let mut used: usize = 0;
        let ghost s = source@;
        assert(s.take(0) =~= Seq::<char>::empty());
        at.push(0);
        while i < chars.len()
            invariant
                i <= chars@.len(),
                chars@ == s,
                total == text::byte_len(s),
                at@.len() == i + 1,
                used == text::byte_len(s.take(i as int)),
                at@[i as int] == used,
                forall|k: int|
                    0 <= k <= i ==> (#[trigger] at@[k]) == text::byte_len(s.take(k)) && at@[k]
                        <= used,
                forall|k: int, l: int| 0 <= k < l <= i ==> (#[trigger] at@[k]) < (#[trigger] at@[l]),
            decreases chars@.len() - i,
        {
            proof {
                text::lemma_byte_len_take(s, i as int);
                text::lemma_byte_len_take_bound(s, i + 1);
            }
            used += text::width(chars[i]);
            i += 1;
            at.push(used);
        }
        Offsets { chars, at }
    }

    /// The first position at or behind a byte offset, or one more than the length.
    fn lower(&self, byte: usize, Ghost(s): Ghost<Seq<char>>) -> (r: usize)
        requires
            self.wf(s),
        ensures
            r <= s.len() + 1,
            forall|i: int| 0 <= i < r ==> (#[trigger] self.at@[i]) < byte,
            forall|i: int| r <= i <= s.len() ==> (#[trigger] self.at@[i]) >= byte,
    {
        let mut lo: usize = 0;
        let mut hi: usize = self.at.len();
        while lo < hi
            invariant
                self.wf(s),
                lo <= hi <= self.at@.len(),
                forall|i: int| 0 <= i < lo ==> (#[trigger] self.at@[i]) < byte,
                forall|i: int| hi <= i <= s.len() ==> (#[trigger] self.at@[i]) >= byte,
            decreases hi - lo,
        {
            let mid: usize = lo + (hi - lo) / 2;
            if self.at[mid] < byte {
                lo = mid + 1;
            } else {
                hi = mid;
            }
        }
        lo
    }

    fn position(&self, byte: usize, Ghost(s): Ghost<Seq<char>>) -> (r: Option<usize>)
        requires
            self.wf(s),
        ensures
            r is Some <==> position_at(s, byte as nat) is Some,
            r matches Some(i) ==> i <= s.len() && position_at(s, byte as nat) == Some(i as int),
    {
        let i: usize = self.lower(byte, Ghost(s));
        if i < self.at.len() && self.at[i] == byte {
            proof {
                assert(text::byte_len(s.take(i as int)) == byte);
                let j = position_at(s, byte as nat)->0;
                assert(text::byte_len(s.take(j)) == byte);
                assert(self.at@[j] == byte);
                assert(self.at@[i as int] == byte);
                assert(i == j);
            }
            Some(i)
        } else {
            proof {
                if exists|j: int| 0 <= j <= s.len() && text::byte_len(#[trigger] s.take(j)) == byte {
                    let j = choose|j: int|
                        0 <= j <= s.len() && text::byte_len(#[trigger] s.take(j)) == byte;
                    assert(self.at@[j] == byte);
                    if i < j {
                        assert(self.at@[i as int] >= byte);
                    }
                }
            }
            None
        }
    }

    fn between(&self, from: usize, to: usize, Ghost(s): Ghost<Seq<char>>) -> (r: Option<String>)
        requires
            self.wf(s),
        ensures
            r is Some <==> text_between(s, from as nat, to as nat) is Some,
            r matches Some(t) ==> text_between(s, from as nat, to as nat) == Some(t@),
    {
        match (self.position(from, Ghost(s)), self.position(to, Ghost(s))) {
            (Some(a), Some(b)) => if a <= b {
                Some(text::sub_string(&self.chars, a, b))
            } else {
                None
            },
            _ => None,
        }
    }
}

// ---------------------------------------------------------------------------
// Symbols
// ---------------------------------------------------------------------------

/// A named definition with its line (from one) and kind.
pub struct Symbol {
    pub name: String,
    pub line: u64,
    pub kind: String,
}

/// What a symbol holds: its name, its line and its kind.
pub open spec fn symbol_view(s: Symbol) -> (Seq<char>, nat, Seq<char>) {
    (s.name@, s.line as nat, s.kind@)
}

/// What a list of symbols holds.
pub open spec fn symbol_views(v: Seq<Symbol>) -> Seq<(Seq<char>, nat, Seq<char>)> {
    Seq::new(v.len(), |i: int| symbol_view(v[i]))
}

/// Whether a kind of node may name a definition.
pub open spec fn is_name_kind(k: Seq<char>) -> bool {
    text::contains_text(k, "identifier"@) || k == "name"@
}

/// The name of the definition `a`, from node `i` on: the text of the first node that belongs to it
/// and may name it, in front of any `=`; "anonymous" where there is none.
pub open spec fn name_below(
    ns: Seq<NodeView>,
    source: Seq<char>,
    lang: Lang,
    a: int,
    i: int,
) -> Seq<char>
    decreases ns.len() - i,
{
    if i >= ns.len() || ns[i].depth <= ns[a].depth {
        "anonymous"@
    } else if is_inner(ns, lang, false, a, i) && ns[i].kind == "="@ {
        "anonymous"@
    } else if is_inner(ns, lang, false, a, i) && is_name_kind(ns[i].kind) && text_between(
        source,
        ns[i].start_byte,
        ns[i].end_byte,
    ) is Some {
        text_between(source, ns[i].start_byte, ns[i].end_byte)->0
    } else {
        name_below(ns, source, lang, a, i + 1)
    }
}

proof fn lemma_name_skips(
    ns: Seq<NodeView>,
    source: Seq<char>,
    lang: Lang,
    a: int,
    i: int,
    e: int,
)
    requires
        0 <= i <= e <= ns.len(),
        forall|j: int| i <= j < e ==> (#[trigger] ns[j]).depth > ns[a].depth && !is_inner(
            ns,
            lang,
            false,
            a,
            j,
        ),
    ensures
        name_below(ns, source, lang, a, i) == name_below(ns, source, lang, a, e),
    decreases e - i,
{
    if i < e {
        assert(ns[i].depth > ns[a].depth);
        lemma_name_skips(ns, source, lang, a, i + 1, e);
    }
}

/// The symbol of a definition.
pub open spec fn symbol_at(ns: Seq<NodeView>, source: Seq<char>, lang: Lang, i: int) -> (
    Seq<char>,
    nat,
    Seq<char>,
) {
    (name_below(ns, source, lang, i, i + 1), ns[i].start_row + 1, ns[i].kind)
}

/// The symbols of a tree, in order.
pub open spec fn symbols_in(ns: Seq<NodeView>, source: Seq<char>, lang: Lang) -> Seq<
    (Seq<char>, nat, Seq<char>),
> {
    let d = reported(ns, lang, false, ns.len());
    Seq::new(d.len(), |k: int| symbol_at(ns, source, lang, d[k]))
}

fn find_name(
    nodes: &Vec<SyntaxNode>,
    offsets: &Offsets,
    lang: Lang,
    a: usize,
    Ghost(source): Ghost<Seq<char>>,
) -> (r: String)
    requires
        a < nodes.len(),
        offsets.wf(source),
    ensures
        r@ == name_below(node_views(nodes@), source, lang, a as int, a + 1),
{
    let ghost ns = node_views(nodes@);
    let mut i: usize = a + 1;
    while i < nodes.len() && nodes[i].depth > nodes[a].depth
        invariant
            a < i <= nodes@.len(),
            ns == node_views(nodes@),
            offsets.wf(source),
            i < nodes@.len() && ns[i as int].depth > ns[a as int].depth ==> is_inner(
                ns,
                lang,
                false,
                a as int,
                i as int,
            ),
            name_below(ns, source, lang, a as int, a + 1) == name_below(
                ns,
                source,
                lang,
                a as int,
                i as int,
            ),
        decreases nodes@.len() - i,
    {
        assert(ns[i as int] == nodes@[i as int]@);
        assert(ns[a as int] == nodes@[a as int]@);
        assert(is_inner(ns, lang, false, a as int, i as int));
        if text::str_eq(nodes[i].kind.as_str(), "=") {
            return text::copy("anonymous");
        }
        if text::contains(nodes[i].kind.as_str(), "identifier") || text::str_eq(
            nodes[i].kind.as_str(),
            "name",
        ) {
            if let Some(name) = offsets.between(
                nodes[i].start_byte as usize,
                nodes[i].end_byte as usize,
                Ghost(source),
            ) {
                return name;
            }
        }
        let next: usize = if is_carrier(nodes[i].kind.as_str(), lang, false) {
            i + 1
        } else {
            subtree_end(nodes, i)
        };
        proof {
            lemma_next_inner(ns, lang, false, a as int, i as int, next as int);
            lemma_name_skips(ns, source, lang, a as int, i + 1, next as int);
        }
        i = next;
    }
    text::copy("anonymous")
}

/// The symbols of a parsed source.
pub fn symbols_of_tree(nodes: &Vec<SyntaxNode>, source: &str, lang: Lang) -> (r: Vec<Symbol>)
    ensures
        symbol_views(r@) == symbols_in(node_views(nodes@), source@, lang),
{
    let ghost ns = node_views(nodes@);
    let found = find_definitions(nodes, lang, false);
    let offsets = Offsets::of(source);
    let mut r: Vec<Symbol> = Vec::new();
    let mut k: usize = 0;
    let ghost d = reported(ns, lang, false, nodes@.len());
    let ghost all = symbols_in(ns, source@, lang);
    while k < found.len()
        invariant
            k <= found@.len(),
            ns == node_views(nodes@),
            offsets.wf(source@),
            d.len() == found@.len(),
            forall|j: int|
                0 <= j < found@.len() ==> (#[trigger] found@[j]) < nodes@.len() && found@[j]
                    == d[j],
            d == reported(ns, lang, false, ns.len()),
            all == symbols_in(ns, source@, lang),
            symbol_views(r@) == all.take(k as int),
        decreases found@.len() - k,
    {
        let i: usize = found[k];
        assert(ns[i as int] == nodes@[i as int]@);
        let name = find_name(nodes, &offsets, lang, i, Ghost(source@));
        let sym = Symbol {
            name,
            line: nodes[i].start_row as u64 + 1,
            kind: nodes[i].kind.clone(),
        };
        let ghost before = r@;
        r.push(sym);
        proof {
            assert(d[k as int] == i);
            assert(all[k as int] == symbol_view(sym));
            assert(all.take(k + 1) =~= all.take(k as int).push(all[k as int]));
            assert(symbol_views(r@) =~= symbol_views(before).push(symbol_view(sym)));
        }
        k += 1;
    }
    assert(all.take(all.len() as int) == all);
    r
}

/// The symbols of a source: none where it has no tree.
pub open spec fn symbols_of(source: Seq<char>, lang: Lang) -> Seq<(Seq<char>, nat, Seq<char>)> {
    match tree_of(source, lang) {
        Some(ns) => symbols_in(ns, source, lang),
        None => Seq::empty(),
    }
}

/// Lists the names and lines of the definitions of a source.
pub fn extract_symbols(source: &str, lang: Lang) -> (r: Vec<Symbol>)
    ensures
        symbol_views(r@) == symbols_of(source@, lang),
{
    match parse_source(source, lang) {
        Some(nodes) => symbols_of_tree(&nodes, source, lang),
        None => {
            let r: Vec<Symbol> = Vec::new();
            assert(symbol_views(r@) =~= Seq::empty());
            r
        },
    }
}

// ---------------------------------------------------------------------------
// Skeletons
// ---------------------------------------------------------------------------

/// The last row of the signature of a definition whose body is node `i`: the row on which what
/// stands in front of the body ends, or on which the node begins that begins with the body.
pub open spec fn row_of_body(ns: Seq<NodeView>, i: int) -> int {
    if ns[i - 1].depth < ns[i].depth {
        ns[i - 1].start_row as int
    } else {
        ns[i - 1].end_row as int
    }
}

/// The last row of the signature of `a`, from node `i` on: that of the first body that belongs to
/// it, or the last row of `a` where it has no body.
pub open spec fn signature_end(ns: Seq<NodeView>, lang: Lang, a: int, i: int) -> int
    decreases ns.len() - i,
{
    if i >= ns.len() || ns[i].depth <= ns[a].depth {
        ns[a].end_row as int
    } else if is_inner(ns, lang, true, a, i) && is_body(lang, ns[i].kind) {
        row_of_body(ns, i)
    } else {
        signature_end(ns, lang, a, i + 1)
    }
}

proof fn lemma_signature_skips(ns: Seq<NodeView>, lang: Lang, a: int, i: int, e: int)
    requires
        0 <= i <= e <= ns.len(),
        forall|j: int| i <= j < e ==> (#[trigger] ns[j]).depth > ns[a].depth && !is_inner(
            ns,
            lang,
            true,
            a,
            j,
        ),
    ensures
        signature_end(ns, lang, a, i) == signature_end(ns, lang, a, e),
    decreases e - i,
{
    if i < e {
        assert(ns[i].depth > ns[a].depth);
        lemma_signature_skips(ns, lang, a, i + 1, e);
    }
}

/// The lines from `from` to `to`, both in. Rows behind the last line are left out.
pub open spec fn rows(lines: Seq<Seq<char>>, from: int, to: int) -> Seq<Seq<char>> {
    let last = if to < lines.len() {
        to
    } else {
        lines.len() - 1
    };
    if from <= last {
        lines.subrange(from, last + 1)
    } else {
        Seq::empty()
    }
}

/// The signature between two rows: the lines without white space at the end, or the first line
/// where nothing is left.
pub open spec fn signature(lines: Seq<Seq<char>>, from: int, to: int) -> Seq<char> {
    let sig = text::trimmed_end(text::joined(rows(lines, from, to), "\n"@));
    if sig.len() > 0 {
        sig
    } else if 0 <= from < lines.len() {
        lines[from]
    } else {
        Seq::empty()
    }
}

/// One definition of a skeleton: its line number and its signature.
pub open spec fn skeleton_entry(
    ns: Seq<NodeView>,
    lines: Seq<Seq<char>>,
    lang: Lang,
    i: int,
) -> Seq<char> {
    "// L"@ + text::decimal(ns[i].start_row + 1) + "\n"@ + signature(
        lines,
        ns[i].start_row as int,
        signature_end(ns, lang, i, i + 1),
    ) + "\n\n"@
}

/// The entries of the given definitions.
pub open spec fn skeleton_entries(
    ns: Seq<NodeView>,
    lines: Seq<Seq<char>>,
    lang: Lang,
    d: Seq<int>,
) -> Seq<char>
    decreases d.len(),
{
    if d.len() == 0 {
        Seq::empty()
    } else {
        skeleton_entries(ns, lines, lang, d.drop_last()) + skeleton_entry(ns, lines, lang, d.last())
    }
}

/// The skeleton of a parsed source.
pub open spec fn skeleton_in(ns: Seq<NodeView>, source: Seq<char>, lang: Lang) -> Seq<char> {
    let d = reported(ns, lang, true, ns.len());
    if d.len() == 0 {
        "// (skeleton: no top-level definitions found)\n"@
    } else {
        skeleton_entries(ns, text::lines_of(source), lang, d)
    }
}

proof fn lemma_reported(ns: Seq<NodeView>, lang: Lang, blocks: bool, i: int, n: nat)
    requires
        is_reported(ns, lang, blocks, i),
        i < n,
    ensures
        reported(ns, lang, blocks, n).contains(i),
    decreases n,
{
    let before = reported(ns, lang, blocks, (n - 1) as nat);
    if i == n - 1 {
        assert(before.push(i).last() == i);
    } else {
        lemma_reported(ns, lang, blocks, i, (n - 1) as nat);
        let k = before.index_of(i);
        if is_reported(ns, lang, blocks, n - 1) {
            assert(before.push(n - 1)[k] == i);
        }
    }
}

proof fn lemma_rust_kinds(k: Seq<char>)
    ensures
        contains_definitions(Lang::Rust, k) ==> !defines(Lang::Rust, k),
        is_block(Lang::Rust, k) ==> !defines(Lang::Rust, k) && !contains_definitions(Lang::Rust, k),
{
    reveal_strlit("function_item");
    reveal_strlit("struct_item");
    reveal_strlit("enum_item");
    reveal_strlit("trait_item");
    reveal_strlit("type_item");
    reveal_strlit("const_item");
    reveal_strlit("static_item");
    reveal_strlit("use_declaration");
    reveal_strlit("impl_item");
    reveal_strlit("mod_item");
    reveal_strlit("declaration_list");
    reveal_strlit("source_file");
    assert("impl_item"@[0] == 'i');
    assert("enum_item"@[0] == 'e');
    assert("type_item"@[0] == 't');
    assert("function_item"@.len() == 13);
    assert("const_item"@.len() == 10);
    assert("trait_item"@.len() == 10);
    assert("use_declaration"@.len() == 15);
    assert("mod_item"@.len() == 8);
    assert("declaration_list"@.len() == 16);
    assert("source_file"@[1] == 'o');
    assert("struct_item"@[1] == 't');
    assert("static_item"@[1] == 't');
}

proof fn lemma_entry_occurs(
    ns: Seq<NodeView>,
    lines: Seq<Seq<char>>,
    lang: Lang,
    d: Seq<int>,
    k: int,
)
    requires
        0 <= k < d.len(),
    ensures
        text::contains_text(
            skeleton_entries(ns, lines, lang, d),
            skeleton_entry(ns, lines, lang, d[k]),
        ),
    decreases d.len(),
{
    let t = d.drop_last();
    let head = skeleton_entries(ns, lines, lang, t);
    let all = skeleton_entries(ns, lines, lang, d);
    let entry = skeleton_entry(ns, lines, lang, d[k]);
    if k == d.len() - 1 {
        assert(all.subrange(head.len() as int, (head.len() + entry.len()) as int) =~= entry);
        assert(text::occurs_at(all, entry, head.len() as int));
    } else {
        lemma_entry_occurs(ns, lines, lang, t, k);
        assert(t[k] == d[k]);
        let p = choose|p: int| text::occurs_at(head, entry, p);
        assert(all.subrange(p, p + entry.len()) =~= head.subrange(p, p + entry.len()));
        assert(text::occurs_at(all, entry, p));
    }
}

/// The skeleton of a Rust source holds a definition wherever only `impl` blocks and modules stand
/// around it: the methods of a type are in it like functions.
pub proof fn law_methods_are_in_the_skeleton(ns: Seq<NodeView>, source: Seq<char>, i: int)
    requires
        0 <= i < ns.len(),
        defines(Lang::Rust, ns[i].kind),
        forall|a: int| #[trigger]
            is_ancestor(ns, a, i) ==> contains_definitions(Lang::Rust, ns[a].kind) || is_block(
                Lang::Rust,
                ns[a].kind,
            ),
    ensures
        is_reported(ns, Lang::Rust, true, i),
        text::contains_text(
            skeleton_in(ns, source, Lang::Rust),
            skeleton_entry(ns, text::lines_of(source), Lang::Rust, i),
        ),
{
    assert forall|a: int| #[trigger] is_ancestor(ns, a, i) implies is_open(
        Lang::Rust,
        true,
        ns[a],
    ) by {
        lemma_rust_kinds(ns[a].kind);
    }
    let d = reported(ns, Lang::Rust, true, ns.len());
    lemma_reported(ns, Lang::Rust, true, i, ns.len());
    lemma_entry_occurs(ns, text::lines_of(source), Lang::Rust, d, d.index_of(i));
}

/// The symbols of a Rust source are its top-level ones: what stands between the brackets of an
/// `impl` block or a module is none.
pub proof fn law_members_of_blocks_are_no_symbols(ns: Seq<NodeView>, a: int, i: int)
    requires
        is_ancestor(ns, a, i),
        is_block(Lang::Rust, ns[a].kind),
        ns[a].depth > 0,
    ensures
        !is_reported(ns, Lang::Rust, false, i),
{
    lemma_rust_kinds(ns[a].kind);
}

/// Every symbol that is listed has its place in the skeleton.
pub proof fn law_symbols_are_in_the_skeleton(
    ns: Seq<NodeView>,
    source: Seq<char>,
    lang: Lang,
    i: int,
)
    requires
        is_reported(ns, lang, false, i),
    ensures
        is_reported(ns, lang, true, i),
        symbols_in(ns, source, lang).contains(symbol_at(ns, source, lang, i)),
        text::contains_text(
            skeleton_in(ns, source, lang),
            skeleton_entry(ns, text::lines_of(source), lang, i),
        ),
{
    assert forall|a: int| #[trigger] is_ancestor(ns, a, i) implies is_open(lang, true, ns[a]) by {
        assert(is_open(lang, false, ns[a]));
    }
    lemma_reported(ns, lang, false, i, ns.len());
    let k = reported(ns, lang, false, ns.len()).index_of(i);
    assert(symbols_in(ns, source, lang)[k] == symbol_at(ns, source, lang, i));
    let d = reported(ns, lang, true, ns.len());
    lemma_reported(ns, lang, true, i, ns.len());
    lemma_entry_occurs(ns, text::lines_of(source), lang, d, d.index_of(i));
}

fn find_signature_end(nodes: &Vec<SyntaxNode>, lang: Lang, a: usize) -> (r: u32)
    requires
        a < nodes.len(),
    ensures
        r == signature_end(node_views(nodes@), lang, a as int, a + 1),
{
    let ghost ns = node_views(nodes@);
    let mut i: usize = a + 1;
    while i < nodes.len() && nodes[i].depth > nodes[a].depth
        invariant
            a < i <= nodes@.len(),
            ns == node_views(nodes@),
            i < nodes@.len() && ns[i as int].depth > ns[a as int].depth ==> is_inner(
                ns,
                lang,
                true,
                a as int,
                i as int,
            ),
            signature_end(ns, lang, a as int, a + 1) == signature_end(
                ns,
                lang,
                a as int,
                i as int,
            ),
        decreases nodes@.len() - i,
    {
        assert(ns[i as int] == nodes@[i as int]@);
        assert(ns[a as int] == nodes@[a as int]@);
        assert(ns[i - 1] == nodes@[i - 1]@);
        assert(is_inner(ns, lang, true, a as int, i as int));
        if is_body_node(nodes[i].kind.as_str(), lang) {
            return if nodes[i - 1].depth < nodes[i].depth {
                nodes[i - 1].start_row
            } else {
                nodes[i - 1].end_row
            };
        }
        let next: usize = if is_carrier(nodes[i].kind.as_str(), lang, true) {
            i + 1
        } else {
            subtree_end(nodes, i)
        };
        proof {
            lemma_next_inner(ns, lang, true, a as int, i as int, next as int);
            lemma_signature_skips(ns, lang, a as int, i + 1, next as int);
        }
        i = next;
    }
    assert(ns[a as int] == nodes@[a as int]@);
    nodes[a].end_row
}

fn make_signature(lines: &Vec<String>, from: u32, to: u32) -> (r: String)
    ensures
        r@ == signature(text::views(lines@), from as int, to as int),
{
    let ghost all = text::views(lines@);
    let mut chosen: Vec<String> = Vec::new();
    let mut i: u64 = from as u64;
    let stop: u64 = to as u64 + 1;
    assert(text::views(chosen@) =~= Seq::<Seq<char>>::empty());
    let ghost last = if to < all.len() {
        to as int
    } else {
        all.len() - 1
    };
    if from <= to {
        while i < stop && i < lines.len() as u64
            invariant
                all == text::views(lines@),
                from <= i <= stop,
                stop == to + 1,
                i <= all.len() || i == from,
                from < all.len() ==> text::views(chosen@) == all.subrange(from as int, i as int),
                from >= all.len() ==> i == from && text::views(chosen@) == Seq::<
                    Seq<char>,
                >::empty(),
            decreases stop - i,
        {
            let ghost before = chosen@;
            chosen.push(lines[i as usize].clone());
            proof {
                text::lemma_views_push(before, chosen@.last());
                assert(all.subrange(from as int, i + 1) =~= all.subrange(
                    from as int,
                    i as int,
                ).push(all[i as int]));
            }
            i += 1;
        }
        assert(text::views(chosen@) =~= rows(all, from as int, to as int));
    } else {
        assert(rows(all, from as int, to as int) =~= Seq::<Seq<char>>::empty());
    }
    let joined = text::join(&chosen, "\n");
    let sig = text::trim_end(joined.as_str());
    if text::byte_count(sig.as_str()) > 0 {
        assert(sig@.len() > 0) by {
            if sig@.len() == 0 {
                assert(text::byte_len(sig@) == 0);
            }
        }
        sig
    } else {
        proof {
            text::lemma_byte_len_zero(sig@);
        }
        if (from as u64) < lines.len() as u64 {
            lines[from as usize].clone()
        } else {
            String::new()
        }
    }
}

/// The skeleton of a parsed source.
pub fn skeleton_of_tree(nodes: &Vec<SyntaxNode>, source: &str, lang: Lang) -> (r: String)
    ensures
        r@ == skeleton_in(node_views(nodes@), source@, lang),
{
    let ghost ns = node_views(nodes@);
    let found = find_definitions(nodes, lang, true);
    if found.len() == 0 {
        return text::copy("// (skeleton: no top-level definitions found)\n");
    }
    let lines = text::lines(source);
    let ghost ls = text::lines_of(source@);
    let mut out = String::new();
    let mut k: usize = 0;
    let ghost d = reported(ns, lang, true, ns.len());
    while k < found.len()
        invariant
            k <= found@.len(),
            ns == node_views(nodes@),
            text::views(lines@) == ls,
            d.len() == found@.len(),
            forall|j: int|
                0 <= j < found@.len() ==> (#[trigger] found@[j]) < nodes@.len() && found@[j]
                    == d[j],
            out@ == skeleton_entries(ns, ls, lang, d.take(k as int)),
        decreases found@.len() - k,
    {
        let i: usize = found[k];
        assert(ns[i as int] == nodes@[i as int]@);
        let end: u32 = find_signature_end(nodes, lang, i);
        let sig = make_signature(&lines, nodes[i].start_row, end);
        let number = text::decimal_text(nodes[i].start_row as u128 + 1);
        let mut entry = text::copy("// L");
        entry.append(number.as_str());
        entry.append("\n");
        entry.append(sig.as_str());
        entry.append("\n\n");
        out.append(entry.as_str());
        proof {
            assert(d[k as int] == i);
            assert(entry@ == skeleton_entry(ns, ls, lang, i as int));
            assert(d.take(k + 1).drop_last() == d.take(k as int));
            assert(d.take(k + 1).last() == i);
        }
        k += 1;
    }
    assert(d.take(d.len() as int) == d);
    out
}

/// The skeleton of a source: the source behind a notice where it has no tree.
pub open spec fn skeleton_of(source: Seq<char>, lang: Lang) -> Seq<char> {
    match tree_of(source, lang) {
        Some(ns) => skeleton_in(ns, source, lang),
        None => "// parse failed\n"@ + source,
    }
}

/// Keeps the signatures of a source, each with its line number, and leaves the bodies out.
pub fn extract_skeleton(source: &str, lang: Lang) -> (r: String)
    ensures
        r@ == skeleton_of(source@, lang),
{
    match parse_source(source, lang) {
        Some(nodes) => skeleton_of_tree(&nodes, source, lang),
        None => {
            let mut r = text::copy("// parse failed\n");
            r.append(source);
            r
        },
    }
}

// ---------------------------------------------------------------------------
// Comments
// ---------------------------------------------------------------------------

/// Whether a kind of node is a comment.
pub open spec fn is_comment(k: Seq<char>) -> bool {
    text::contains_text(k, "comment"@)
}

/// Whether a node is an outermost comment.
pub open spec fn is_outer_comment(ns: Seq<NodeView>, i: int) -> bool {
    &&& 0 <= i < ns.len()
    &&& is_comment(ns[i].kind)
    &&& forall|a: int| #[trigger] is_ancestor(ns, a, i) ==> !is_comment(ns[a].kind)
}

/// Whether a byte lies in an outermost comment.
pub open spec fn in_comment(ns: Seq<NodeView>, byte: nat) -> bool {
    exists|i: int| #[trigger]
        is_outer_comment(ns, i) && ns[i].start_byte <= byte < ns[i].end_byte
}

/// The first `n` characters without those that lie in comments.
pub open spec fn uncommented(ns: Seq<NodeView>, source: Seq<char>, n: nat) -> Seq<char>
    decreases n,
{
    if n == 0 {
        Seq::empty()
    } else if in_comment(ns, text::byte_len(source.take(n - 1))) {
        uncommented(ns, source, (n - 1) as nat)
    } else {
        uncommented(ns, source, (n - 1) as nat).push(source[n - 1])
    }
}

/// Whether a line is kept: it is not blank, or the line in front of it is not.
pub open spec fn is_kept(lines: Seq<Seq<char>>, i: int) -> bool {
    !(text::is_blank(lines[i]) && i > 0 && text::is_blank(lines[i - 1]))
}

/// The first `n` lines, with each run of blank lines cut down to its first.
pub open spec fn collapsed(lines: Seq<Seq<char>>, n: nat) -> Seq<Seq<char>>
    decreases n,
{
    if n == 0 {
        Seq::empty()
    } else if is_kept(lines, n - 1) {
        collapsed(lines, (n - 1) as nat).push(lines[n - 1])
    } else {
        collapsed(lines, (n - 1) as nat)
    }
}

/// A text with each run of blank lines cut down to one. The other lines stay as they are, with
/// their line endings.
pub open spec fn without_blank_runs(s: Seq<char>) -> Seq<char> {
    let lines = text::segments_of(s);
    text::concatenated(collapsed(lines, lines.len()))
}

proof fn lemma_collapsed_last(lines: Seq<Seq<char>>, n: nat)
    requires
        0 < n <= lines.len(),
    ensures
        collapsed(lines, n).len() > 0,
        text::is_blank(collapsed(lines, n).last()) == text::is_blank(lines[n - 1]),
    decreases n,
{
    if n > 1 {
        lemma_collapsed_last(lines, (n - 1) as nat);
    }
}

/// No two neighbouring lines of a collapsed list are blank.
pub proof fn law_no_two_blank_lines_in_a_row(lines: Seq<Seq<char>>, n: nat)
    requires
        n <= lines.len(),
    ensures
        forall|i: int|
            0 < i < collapsed(lines, n).len() ==> !(text::is_blank(
                #[trigger] collapsed(lines, n)[i],
            ) && text::is_blank(collapsed(lines, n)[i - 1])),
    decreases n,
{
    if n > 0 {
        law_no_two_blank_lines_in_a_row(lines, (n - 1) as nat);
        let before = collapsed(lines, (n - 1) as nat);
        if n > 1 {
            lemma_collapsed_last(lines, (n - 1) as nat);
        }
        let now = collapsed(lines, n);
        assert forall|i: int| 0 < i < now.len() implies !(text::is_blank(#[trigger] now[i])
            && text::is_blank(now[i - 1])) by {
            if i < before.len() {
                assert(now[i] == before[i]);
                assert(now[i - 1] == before[i - 1]);
            } else {
                assert(now[i - 1] == before.last());
            }
        }
    }
}

/// Lines without two blank neighbours stay as they are, so collapsing twice changes nothing.
pub proof fn law_collapsing_is_idempotent(lines: Seq<Seq<char>>, n: nat)
    requires
        n <= lines.len(),
        forall|i: int|
            0 < i < lines.len() ==> !(text::is_blank(#[trigger] lines[i]) && text::is_blank(
                lines[i - 1],
            )),
    ensures
        collapsed(lines, n) == lines.take(n as int),
    decreases n,
{
    if n > 0 {
        law_collapsing_is_idempotent(lines, (n - 1) as nat);
        assert(lines.take(n as int) =~= lines.take(n - 1).push(lines[n - 1]));
        if n > 1 {
            assert(!(text::is_blank(lines[n - 1]) && text::is_blank(lines[n - 2])));
        }
    } else {
        assert(lines.take(0) =~= Seq::<Seq<char>>::empty());
    }
}

proof fn lemma_collapsed_ends(lines: Seq<Seq<char>>, n: nat)
    requires
        0 < n <= lines.len(),
    ensures
        collapsed(lines, n).len() > 0,
        is_kept(lines, n - 1) ==> collapsed(lines, n).last() == lines[n - 1],
        (forall|k: int|
            0 <= k < n ==> (#[trigger] lines[k]).len() > 0 && lines[k].last() == '\n')
            ==> collapsed(lines, n).last().len() > 0 && collapsed(lines, n).last().last() == '\n',
    decreases n,
{
    if !is_kept(lines, n - 1) {
        lemma_collapsed_ends(lines, (n - 1) as nat);
    }
}

/// Cutting runs of blank lines leaves the end of a text: it ends with a newline exactly where it
/// did before. A text is left out whose last line has no ending and is white space behind a blank
/// line.
pub proof fn law_the_end_of_the_text_stays(s: Seq<char>)
    requires
        s.len() > 0,
        s.last() == '\n' || is_kept(text::segments_of(s), text::segments_of(s).len() - 1),
    ensures
        without_blank_runs(s).len() > 0,
        (without_blank_runs(s).last() == '\n') == (s.last() == '\n'),
{
    let lines = text::segments_of(s);
    text::lemma_segments_make_up_the_text(s, 0);
    lemma_collapsed_ends(lines, lines.len());
    let kept = collapsed(lines, lines.len());
    if s.last() != '\n' {
        assert(kept.last() == lines.last());
        assert(lines[lines.len() - 1].len() > 0);
    }
    assert(without_blank_runs(s).last() == kept.last().last());
}

/// A text without two blank lines in a row stays as it is.
pub proof fn law_single_blank_lines_stay(s: Seq<char>)
    requires
        forall|i: int|
            0 < i < text::segments_of(s).len() ==> !(text::is_blank(
                #[trigger] text::segments_of(s)[i],
            ) && text::is_blank(text::segments_of(s)[i - 1])),
    ensures
        without_blank_runs(s) == s,
{
    let lines = text::segments_of(s);
    law_collapsing_is_idempotent(lines, lines.len());
    text::lemma_segments_make_up_the_text(s, 0);
    assert(lines.take(lines.len() as int) =~= lines);
    assert(s.subrange(0, s.len() as int) =~= s);
}

/// A text without comments keeps all its characters.
pub proof fn law_without_comments_nothing_is_removed(ns: Seq<NodeView>, source: Seq<char>, n: nat)
    requires
        forall|i: int| 0 <= i < ns.len() ==> !is_comment((#[trigger] ns[i]).kind),
        n <= source.len(),
    ensures
        uncommented(ns, source, n) == source.take(n as int),
    decreases n,
{
    if n > 0 {
        law_without_comments_nothing_is_removed(ns, source, (n - 1) as nat);
        assert(!in_comment(ns, text::byte_len(source.take(n - 1)))) by {
            assert forall|i: int| !(#[trigger] is_outer_comment(ns, i)) by {}
        }
        assert(source.take(n as int) =~= source.take(n - 1).push(source[n - 1]));
    } else {
        assert(source.take(0) =~= Seq::<char>::empty());
    }
}

/// Marks the characters that lie in comments.
fn mark_comments(nodes: &Vec<SyntaxNode>, offsets: &Offsets, Ghost(s): Ghost<Seq<char>>) -> (r: Vec<
    bool,
>)
    requires
        offsets.wf(s),
    ensures
        r@.len() == s.len(),
        forall|k: int|
            0 <= k < s.len() ==> (#[trigger] r@[k]) == in_comment(
                node_views(nodes@),
                text::byte_len(s.take(k)),
            ),
{
    let ghost ns = node_views(nodes@);
    let n: usize = offsets.chars.len();
    let mut mask: Vec<bool> = Vec::new();
    let mut k: usize = 0;
    while k < n
        invariant
            k <= n,
            n == s.len(),
            mask@.len() == k,
            forall|j: int| 0 <= j < k ==> !(#[trigger] mask@[j]),
        decreases n - k,
    {
        mask.push(false);
        k += 1;
    }
    let mut i: usize = 0;
    while i < nodes.len()
        invariant
            i <= nodes@.len(),
            ns == node_views(nodes@),
            offsets.wf(s),
            n == s.len(),
            mask@.len() == n,
            forall|a: int| #[trigger] is_ancestor(ns, a, i as int) ==> !is_comment(ns[a].kind),
            forall|j: int|
                0 <= j < n ==> ((#[trigger] mask@[j]) <==> exists|c: int|
                    c < i && #[trigger] is_outer_comment(ns, c) && ns[c].start_byte
                        <= text::byte_len(s.take(j)) < ns[c].end_byte),
        decreases nodes@.len() - i,
    {
        let ghost here = i;
        assert(ns[i as int] == nodes@[i as int]@);
        if text::contains(nodes[i].kind.as_str(), "comment") {
            let from: usize = nodes[i].start_byte as usize;
            let to: usize = nodes[i].end_byte as usize;
            let ghost before = mask@;
            assert(is_outer_comment(ns, i as int));
            let low: usize = offsets.lower(from, Ghost(s));
            let mut j: usize = low;
            while j < n && offsets.at[j] < to
                invariant
                    low <= j <= n || j == low,
                    n == s.len(),
                    offsets.wf(s),
                    mask@.len() == n,
                    before.len() == n,
                    forall|l: int| 0 <= l < low && l < n ==> (#[trigger] mask@[l]) == before[l],
                    forall|l: int| low <= l < j && l < n ==> (#[trigger] mask@[l]),
                    forall|l: int| low <= l < j && l < n ==> (#[trigger] offsets.at@[l]) < to,
                    forall|l: int| j <= l < n ==> (#[trigger] mask@[l]) == before[l],
                decreases n - j,
            {
                mask.set(j, true);
                j += 1;
            }
            let next: usize = subtree_end(nodes, i);
            proof {
                assert forall|l: int| 0 <= l < n implies ((#[trigger] mask@[l]) <==> exists|c: int|
                    c < next && #[trigger] is_outer_comment(ns, c) && ns[c].start_byte
                        <= text::byte_len(s.take(l)) < ns[c].end_byte) by {
                    assert(offsets.at@[l] == text::byte_len(s.take(l)));
                    if low <= l < j {
                        assert(offsets.at@[l] >= from);
                        assert(offsets.at@[l] < to);
                        assert(is_outer_comment(ns, here as int));
                    } else {
                        assert(mask@[l] == before[l]);
                        assert(!(from <= offsets.at@[l] < to)) by {
                            if l < low {
                                assert(offsets.at@[l] < from);
                            } else if l > j {
                                assert(offsets.at@[j as int] >= to);
                                assert(offsets.at@[j as int] < offsets.at@[l]);
                            }
                        }
                        if before[l] {
                            let c = choose|c: int|
                                c < here && #[trigger] is_outer_comment(ns, c) && ns[c].start_byte
                                    <= text::byte_len(s.take(l)) < ns[c].end_byte;
                            assert(c < next);
                        }
                        if exists|c: int|
                            c < next && #[trigger] is_outer_comment(ns, c) && ns[c].start_byte
                                <= text::byte_len(s.take(l)) < ns[c].end_byte {
                            let c = choose|c: int|
                                c < next && #[trigger] is_outer_comment(ns, c) && ns[c].start_byte
                                    <= text::byte_len(s.take(l)) < ns[c].end_byte;
                            if c > here {
                                assert(is_ancestor(ns, here as int, c));
                            }
                            assert(c < here);
                        }
                    }
                }
                assert forall|a: int| #[trigger] is_ancestor(ns, a, next as int) implies !is_comment(
                    ns[a].kind,
                ) by {
                    assert(ns[next as int].depth > ns[a].depth);
                    assert(a < here) by {
                        if a > here {
                            assert(ns[a].depth > ns[here as int].depth);
                        }
                    }
                    assert(is_ancestor(ns, a, here as int));
                }
            }
            i = next;
        } else {
            i += 1;
            proof {
                assert(!is_outer_comment(ns, here as int));
                assert forall|a: int| #[trigger] is_ancestor(ns, a, i as int) implies !is_comment(
                    ns[a].kind,
                ) by {
                    if a < here {
                        assert(is_ancestor(ns, a, here as int));
                    }
                }
                assert forall|l: int| 0 <= l < n implies ((#[trigger] mask@[l]) <==> exists|c: int|
                    c < i && #[trigger] is_outer_comment(ns, c) && ns[c].start_byte
                        <= text::byte_len(s.take(l)) < ns[c].end_byte) by {
                    if mask@[l] {
                        let c = choose|c: int|
                            c < here && #[trigger] is_outer_comment(ns, c) && ns[c].start_byte
                                <= text::byte_len(s.take(l)) < ns[c].end_byte;
                        assert(c < i);
                    }
                }
            }
        }
    }
    mask
}

/// Cuts each run of blank lines down to its first line.
fn collapse_blank_lines(lines: &Vec<String>) -> (r: Vec<String>)
    ensures
        text::views(r@) == collapsed(text::views(lines@), lines@.len()),
{
    let ghost all = text::views(lines@);
    let mut r: Vec<String> = Vec::new();
    let mut prev_blank: bool = false;
    let mut i: usize = 0;
    assert(text::views(r@) =~= Seq::<Seq<char>>::empty());
    while i < lines.len()
        invariant
            i <= lines@.len(),
            all == text::views(lines@),
            prev_blank == (i > 0 && text::is_blank(all[i - 1])),
            text::views(r@) == collapsed(all, i as nat),
        decreases lines@.len() - i,
    {
        let is_blank = text::blank(lines[i].as_str());
        if !(is_blank && prev_blank) {
            let ghost before = r@;
            r.push(lines[i].clone());
            proof {
                text::lemma_views_push(before, r@.last());
            }
        }
        prev_blank = is_blank;
        i += 1;
    }
    r
}

/// The text of a parsed source without its comments.
pub open spec fn stripped_in(ns: Seq<NodeView>, source: Seq<char>) -> Seq<char> {
    without_blank_runs(uncommented(ns, source, source.len()))
}

/// Removes the comments of a parsed source.
pub fn strip_tree(nodes: &Vec<SyntaxNode>, source: &str) -> (r: String)
    ensures
        r@ == stripped_in(node_views(nodes@), source@),
{
    let ghost ns = node_views(nodes@);
    let ghost s = source@;
    let offsets = Offsets::of(source);
    let mask = mark_comments(nodes, &offsets, Ghost(s));
    let mut kept = String::new();
    let mut k: usize = 0;
    while k < offsets.chars.len()
        invariant
            k <= s.len(),
            offsets.chars@ == s,
            mask@.len() == s.len(),
            forall|j: int|
                0 <= j < s.len() ==> (#[trigger] mask@[j]) == in_comment(
                    ns,
                    text::byte_len(s.take(j)),
                ),
            kept@ == uncommented(ns, s, k as nat),
        decreases s.len() - k,
    {
        if !mask[k] {
            kept.push(offsets.chars[k]);
        }
        k += 1;
    }
    let lines = text::segments(kept.as_str());
    let result = collapse_blank_lines(&lines);
    assert(text::views(lines@).len() == lines@.len());
    text::concat(&result)
}

/// A source without its comments: the source itself where it has no tree.
pub open spec fn stripped(source: Seq<char>, lang: Lang) -> Seq<char> {
    match tree_of(source, lang) {
        Some(ns) => stripped_in(ns, source),
        None => source,
    }
}

/// Removes all comments of a source, and cuts runs of blank lines down to one.
pub fn strip_comments(source: &str, lang: Lang) -> (r: String)
    ensures
        r@ == stripped(source@, lang),
{
    match parse_source(source, lang) {
        Some(nodes) => strip_tree(&nodes, source),
        None => text::copy(source),
    }
}

// ---------------------------------------------------------------------------
// Laws
// ---------------------------------------------------------------------------

/// Whether node `a` stands above node `i` in a tree.
pub open spec fn stands_above(ns: Seq<NodeView>, a: int, i: int) -> bool {
    0 <= a && a < i && i < ns.len() && forall|j: int|
        a < j <= i ==> ns[a].depth < (#[trigger] ns[j]).depth
}

/// Whether a byte lies in a comment: in the span of a node whose kind names a comment, and that
/// has no such node above it, at whatever depth.
pub open spec fn lies_in_comment(ns: Seq<NodeView>, byte: nat) -> bool {
    exists|i: int|
        0 <= i < ns.len() && text::contains_text((#[trigger] ns[i]).kind, "comment"@) && (forall|
            a: int,
        | #[trigger]
            stands_above(ns, a, i) ==> !text::contains_text(ns[a].kind, "comment"@))
            && ns[i].start_byte <= byte && byte < ns[i].end_byte
}

/// The characters of a text that are not white space.
pub open spec fn visible(s: Seq<char>) -> Seq<char>
    decreases s.len(),
{
    if s.len() == 0 {
        Seq::empty()
    } else if text::is_white(s.last()) {
        visible(s.drop_last())
    } else {
        visible(s.drop_last()).push(s.last())
    }
}

proof fn lemma_visible_add(a: Seq<char>, b: Seq<char>)
    ensures
        visible(a + b) == visible(a) + visible(b),
    decreases b.len(),
{
    if b.len() == 0 {
        assert(a + b =~= a);
        assert(visible(a) + visible(b) =~= visible(a));
    } else {
        lemma_visible_add(a, b.drop_last());
        assert((a + b).drop_last() =~= a + b.drop_last());
        assert((a + b).last() == b.last());
        assert(visible(a + b) =~= visible(a) + visible(b));
    }
}

proof fn lemma_visible_blank(s: Seq<char>)
    requires
        text::is_blank(s),
    ensures
        visible(s).len() == 0,
    decreases s.len(),
{
    if s.len() > 0 {
        assert(text::is_white(s[s.len() - 1]));
        assert forall|i: int| 0 <= i < s.drop_last().len() implies text::is_white(
            #[trigger] s.drop_last()[i],
        ) by {
            assert(s.drop_last()[i] == s[i]);
        }
        lemma_visible_blank(s.drop_last());
    }
}

proof fn lemma_collapsing_keeps_what_is_visible(lines: Seq<Seq<char>>, n: nat)
    requires
        n <= lines.len(),
    ensures
        visible(text::concatenated(collapsed(lines, n))) == visible(
            text::concatenated(lines.take(n as int)),
        ),
    decreases n,
{
    if n > 0 {
        lemma_collapsing_keeps_what_is_visible(lines, (n - 1) as nat);
        let before = collapsed(lines, (n - 1) as nat);
        let line = lines[n - 1];
        assert(lines.take(n as int) =~= lines.take(n - 1).push(line));
        text::lemma_concatenated_push(lines.take(n - 1), line);
        lemma_visible_add(text::concatenated(lines.take(n - 1)), line);
        if is_kept(lines, n - 1) {
            text::lemma_concatenated_push(before, line);
            lemma_visible_add(text::concatenated(before), line);
        } else {
            lemma_visible_blank(line);
            assert(visible(text::concatenated(lines.take(n - 1))) + visible(line) =~= visible(
                text::concatenated(lines.take(n - 1)),
            ));
        }
    } else {
        assert(lines.take(0) =~= Seq::<Seq<char>>::empty());
    }
}

proof fn lemma_same_comments(ns: Seq<NodeView>, byte: nat)
    ensures
        in_comment(ns, byte) == lies_in_comment(ns, byte),
{
    assert forall|a: int, i: int| #[trigger] stands_above(ns, a, i) == is_ancestor(ns, a, i) by {}
    if in_comment(ns, byte) {
        let i = choose|i: int| #[trigger]
            is_outer_comment(ns, i) && ns[i].start_byte <= byte < ns[i].end_byte;
        assert forall|a: int| #[trigger] stands_above(ns, a, i) implies !text::contains_text(
            ns[a].kind,
            "comment"@,
        ) by {
            assert(is_ancestor(ns, a, i));
        }
        assert(text::contains_text(ns[i].kind, "comment"@));
    }
    if lies_in_comment(ns, byte) {
        let i = choose|i: int|
            0 <= i < ns.len() && text::contains_text((#[trigger] ns[i]).kind, "comment"@) && (
            forall|a: int| #[trigger]
                stands_above(ns, a, i) ==> !text::contains_text(ns[a].kind, "comment"@))
                && ns[i].start_byte <= byte && byte < ns[i].end_byte;
        assert forall|a: int| #[trigger] is_ancestor(ns, a, i) implies !is_comment(
            ns[a].kind,
        ) by {
            assert(stands_above(ns, a, i));
        }
        assert(is_outer_comment(ns, i));
    }
}

proof fn lemma_kept_positions(ns: Seq<NodeView>, source: Seq<char>, n: nat) -> (kept: Seq<int>)
    requires
        n <= source.len(),
    ensures
        uncommented(ns, source, n) == Seq::new(kept.len(), |k: int| source[kept[k]]),
        forall|k: int| 0 <= k < kept.len() ==> 0 <= #[trigger] kept[k] < n,
        forall|k: int, l: int| 0 <= k < l < kept.len() ==> #[trigger] kept[k] < #[trigger] kept[l],
        forall|p: int|
            0 <= p < n ==> (kept.contains(p) <==> !lies_in_comment(
                ns,
                #[trigger] text::byte_len(source.take(p)),
            )),
    decreases n,
{
    if n == 0 {
        let kept = Seq::<int>::empty();
        assert(uncommented(ns, source, 0) =~= Seq::new(kept.len(), |k: int| source[kept[k]]));
        kept
    } else {
        let before = lemma_kept_positions(ns, source, (n - 1) as nat);
        lemma_same_comments(ns, text::byte_len(source.take(n - 1)));
        if in_comment(ns, text::byte_len(source.take(n - 1))) {
            assert(!before.contains(n - 1));
            before
        } else {
            let kept = before.push(n - 1);
            assert(uncommented(ns, source, n) =~= Seq::new(kept.len(), |k: int| source[kept[k]]));
            assert forall|p: int| 0 <= p < n implies (kept.contains(p) <==> !lies_in_comment(
                ns,
                #[trigger] text::byte_len(source.take(p)),
            )) by {
                if p < n - 1 {
                    if before.contains(p) {
                        assert(kept[before.index_of(p)] == p);
                    }
                    if kept.contains(p) {
                        assert(before[kept.index_of(p)] == p);
                    }
                } else {
                    assert(kept[kept.len() - 1] == p);
                }
            }
            kept
        }
    }
}

/// What is left of a source without its comments: of the characters that are not white space,
/// exactly those outside comments, in their order, and no other. `kept` lists the positions
/// outside comments.
pub proof fn law_all_comments_are_removed_and_nothing_else(
    ns: Seq<NodeView>,
    source: Seq<char>,
) -> (kept: Seq<int>)
    ensures
        forall|k: int| 0 <= k < kept.len() ==> 0 <= #[trigger] kept[k] < source.len(),
        forall|k: int, l: int| 0 <= k < l < kept.len() ==> #[trigger] kept[k] < #[trigger] kept[l],
        forall|p: int|
            0 <= p < source.len() ==> (kept.contains(p) <==> !lies_in_comment(
                ns,
                #[trigger] text::byte_len(source.take(p)),
            )),
        visible(stripped_in(ns, source)) == visible(
            Seq::new(kept.len(), |k: int| source[kept[k]]),
        ),
{
    let kept = lemma_kept_positions(ns, source, source.len());
    let rest = uncommented(ns, source, source.len());
    let lines = text::segments_of(rest);
    text::lemma_segments_make_up_the_text(rest, 0);
    lemma_collapsing_keeps_what_is_visible(lines, lines.len());
    assert(lines.take(lines.len() as int) =~= lines);
    assert(rest.subrange(0, rest.len() as int) =~= rest);
    kept
}

/// The lines that are not blank.
pub open spec fn lines_with_text(lines: Seq<Seq<char>>) -> Seq<Seq<char>>
    decreases lines.len(),
{
    if lines.len() == 0 {
        Seq::empty()
    } else if text::is_blank(lines.last()) {
        lines_with_text(lines.drop_last())
    } else {
        lines_with_text(lines.drop_last()).push(lines.last())
    }
}

/// Cutting runs of blank lines keeps every line with text, as it is and in its place among the
/// others.
pub proof fn law_lines_with_text_stay(lines: Seq<Seq<char>>, n: nat)
    requires
        n <= lines.len(),
    ensures
        lines_with_text(collapsed(lines, n)) == lines_with_text(lines.take(n as int)),
    decreases n,
{
    if n > 0 {
        law_lines_with_text_stay(lines, (n - 1) as nat);
        let before = collapsed(lines, (n - 1) as nat);
        assert(lines.take(n as int).drop_last() =~= lines.take(n - 1));
        assert(lines.take(n as int).last() == lines[n - 1]);
        if is_kept(lines, n - 1) {
            assert(before.push(lines[n - 1]).drop_last() =~= before);
        }
    } else {
        assert(lines.take(0) =~= Seq::<Seq<char>>::empty());
    }
}

/// The kinds of definitions of each language, by name.
pub open spec fn is_definition_kind(lang: Lang, k: Seq<char>) -> bool {
    match lang {
        Lang::Rust => {
            ||| k == "function_item"@
            ||| k == "struct_item"@
            ||| k == "enum_item"@
            ||| k == "trait_item"@
            ||| k == "type_item"@
            ||| k == "const_item"@
            ||| k == "static_item"@
            ||| k == "use_declaration"@
        },
        Lang::TypeScript => {
            ||| k == "function_declaration"@
            ||| k == "export_statement"@
            ||| k == "class_declaration"@
            ||| k == "interface_declaration"@
            ||| k == "type_alias_declaration"@
            ||| k == "enum_declaration"@
            ||| k == "lexical_declaration"@
        },
        Lang::Python => {
            ||| k == "function_definition"@
            ||| k == "class_definition"@
            ||| k == "decorated_definition"@
        },
        Lang::Go => {
            ||| k == "function_declaration"@
            ||| k == "method_declaration"@
            ||| k == "type_declaration"@
            ||| k == "var_declaration"@
            ||| k == "const_declaration"@
        },
    }
}

/// A node directly below the root is in the skeleton and among the symbols, with its line, exactly
/// where it is of one of the kinds of definitions. The skeleton goes on behind the line number
/// with the signature.
pub proof fn law_top_level_definitions_are_found_by_kind(
    ns: Seq<NodeView>,
    source: Seq<char>,
    lang: Lang,
    i: int,
)
    requires
        0 < i < ns.len(),
        ns[0].depth == 0,
        ns[i].depth == 1,
        forall|j: int| 0 < j < ns.len() ==> (#[trigger] ns[j]).depth > 0,
        !is_definition_kind(lang, ns[0].kind),
    ensures
        is_definition_kind(lang, ns[i].kind) ==> (exists|k: int|
            0 <= k < symbols_in(ns, source, lang).len() && (#[trigger] symbols_in(
                ns,
                source,
                lang,
            )[k]).1 == ns[i].start_row + 1 && symbols_in(ns, source, lang)[k].2 == ns[i].kind)
            && text::contains_text(
            skeleton_in(ns, source, lang),
            "// L"@ + text::decimal(ns[i].start_row + 1) + "\n"@ + signature(
                text::lines_of(source),
                ns[i].start_row as int,
                signature_end(ns, lang, i, i + 1),
            ) + "\n\n"@,
        ),
        reported(ns, lang, true, ns.len()).contains(i) <==> is_definition_kind(lang, ns[i].kind),
        reported(ns, lang, false, ns.len()).contains(i) <==> is_definition_kind(lang, ns[i].kind),
{
    law_each_definition_is_reported_once(ns, lang, true, ns.len());
    law_each_definition_is_reported_once(ns, lang, false, ns.len());
    if is_definition_kind(lang, ns[i].kind) {
        law_top_level_definitions_are_reported(ns, lang, false, i);
        law_top_level_definitions_are_reported(ns, lang, true, i);
        law_symbols_are_in_the_skeleton(ns, source, lang, i);
        let sym = symbol_at(ns, source, lang, i);
        let k = symbols_in(ns, source, lang).index_of(sym);
        assert(symbols_in(ns, source, lang)[k] == sym);
        lemma_reported(ns, lang, true, i, ns.len());
        lemma_reported(ns, lang, false, i, ns.len());
    }
}

/// The reported nodes stand in the order of the source, and each is reported once.
pub proof fn law_each_definition_is_reported_once(
    ns: Seq<NodeView>,
    lang: Lang,
    blocks: bool,
    n: nat,
)
    requires
        n <= ns.len(),
    ensures
        forall|k: int, l: int|
            0 <= k < l < reported(ns, lang, blocks, n).len() ==> (#[trigger] reported(
                ns,
                lang,
                blocks,
                n,
            )[k]) < (#[trigger] reported(ns, lang, blocks, n)[l]),
        forall|k: int|
            0 <= k < reported(ns, lang, blocks, n).len() ==> 0 <= (#[trigger] reported(
                ns,
                lang,
                blocks,
                n,
            )[k]) < n && is_reported(ns, lang, blocks, reported(ns, lang, blocks, n)[k]),
    decreases n,
{
    if n > 0 {
        law_each_definition_is_reported_once(ns, lang, blocks, (n - 1) as nat);
        let before = reported(ns, lang, blocks, (n - 1) as nat);
        let now = reported(ns, lang, blocks, n);
        assert forall|k: int, l: int| 0 <= k < l < now.len() implies (#[trigger] now[k]) < (
        #[trigger] now[l]) by {
            assert(now[k] == before[k]);
            if l < before.len() {
                assert(now[l] == before[l]);
            }
        }
        assert forall|k: int| 0 <= k < now.len() implies 0 <= (#[trigger] now[k]) < n
            && is_reported(ns, lang, blocks, now[k]) by {
            if k < before.len() {
                assert(now[k] == before[k]);
            }
        }
    }
}

/// The kinds of nodes whose members are looked at, by name.
pub open spec fn is_container_kind(lang: Lang, k: Seq<char>) -> bool {
    match lang {
        Lang::Rust => k == "impl_item"@ || k == "mod_item"@ || k == "source_file"@,
        Lang::TypeScript => k == "program"@ || k == "module"@,
        Lang::Python => k == "module"@,
        Lang::Go => k == "source_file"@,
    }
}

/// A node is reported, at whatever depth, exactly where it is a definition and every node above
/// it is a container and no definition. The root counts as a container, and for skeletons so does
/// the list of members of a Rust block.
pub proof fn law_definitions_are_reported_below_containers(
    ns: Seq<NodeView>,
    lang: Lang,
    blocks: bool,
    i: int,
)
    requires
        0 <= i < ns.len(),
    ensures
        reported(ns, lang, blocks, ns.len()).contains(i) <==> is_definition_kind(lang, ns[i].kind)
            && forall|a: int| #[trigger]
            stands_above(ns, a, i) ==> !is_definition_kind(lang, ns[a].kind) && (is_container_kind(
                lang,
                ns[a].kind,
            ) || ns[a].depth == 0 || (blocks && lang is Rust && ns[a].kind
                == "declaration_list"@)),
{
    law_each_definition_is_reported_once(ns, lang, blocks, ns.len());
    assert forall|a: int| #[trigger] stands_above(ns, a, i) == is_ancestor(ns, a, i) by {}
    if is_reported(ns, lang, blocks, i) {
        lemma_reported(ns, lang, blocks, i, ns.len());
        assert forall|a: int| #[trigger] stands_above(ns, a, i) implies !is_definition_kind(
            lang,
            ns[a].kind,
        ) && (is_container_kind(lang, ns[a].kind) || ns[a].depth == 0 || (blocks && lang is Rust
            && ns[a].kind == "declaration_list"@)) by {
            assert(is_ancestor(ns, a, i));
        }
    } else if is_definition_kind(lang, ns[i].kind) {
        let a = choose|a: int| #[trigger] is_ancestor(ns, a, i) && !is_open(lang, blocks, ns[a]);
        assert(stands_above(ns, a, i));
    }
}

/// Whether nodes make up a tree: each stands at most one level below the one in front of it.
pub open spec fn is_tree(ns: Seq<NodeView>) -> bool {
    forall|j: int| 0 < j < ns.len() ==> (#[trigger] ns[j]).depth <= ns[j - 1].depth + 1
}

/// Whether node `i` is a child of node `a`.
pub open spec fn is_child(ns: Seq<NodeView>, a: int, i: int) -> bool {
    stands_above(ns, a, i) && ns[i].depth == ns[a].depth + 1
}

proof fn lemma_parent_between(ns: Seq<NodeView>, a: int, j: int, b: int)
    requires
        is_tree(ns),
        stands_above(ns, a, j),
        ns[j].depth > ns[a].depth + 1,
        a <= b < j,
        forall|k: int| b < k < j ==> (#[trigger] ns[k]).depth >= ns[j].depth,
    ensures
        exists|p: int| a < p && #[trigger] is_ancestor(ns, p, j),
    decreases b - a,
{
    if b == a {
        assert(ns[a + 1].depth <= ns[a].depth + 1);
        if a + 1 < j {
            assert(ns[a + 1].depth >= ns[j].depth);
        }
        assert(false);
    } else if ns[b].depth < ns[j].depth {
        assert(is_ancestor(ns, b, j));
    } else {
        lemma_parent_between(ns, a, j, b - 1);
    }
}

/// In a Rust tree exactly the children belong to a definition.
proof fn lemma_rust_inner(ns: Seq<NodeView>, body: bool, a: int, i: int)
    requires
        is_tree(ns),
    ensures
        is_inner(ns, Lang::Rust, body, a, i) == is_child(ns, a, i),
{
    if is_inner(ns, Lang::Rust, body, a, i) {
        assert(stands_above(ns, a, i));
        if ns[i].depth > ns[a].depth + 1 {
            lemma_parent_between(ns, a, i, i - 1);
            let p = choose|p: int| a < p && #[trigger] is_ancestor(ns, p, i);
            assert(carries(Lang::Rust, ns[p].kind, body));
        }
        assert(ns[i].depth > ns[a].depth);
    }
    if is_child(ns, a, i) {
        assert(is_ancestor(ns, a, i));
        assert forall|b: int| a < b && #[trigger] is_ancestor(ns, b, i) implies carries(
            Lang::Rust,
            ns[b].kind,
            body,
        ) by {
            assert(ns[b].depth > ns[a].depth);
            assert(ns[i].depth > ns[b].depth);
        }
    }
}

/// The kinds of bodies of Rust definitions, by name.
pub open spec fn is_rust_body_kind(k: Seq<char>) -> bool {
    k == "block"@ || k == "declaration_list"@ || k == "enum_variant_list"@ || k
        == "field_declaration_list"@
}

proof fn lemma_rust_end(ns: Seq<NodeView>, a: int, i: int, j: int)
    requires
        is_tree(ns),
        0 <= a < j <= i < ns.len(),
        is_child(ns, a, i),
        is_rust_body_kind(ns[i].kind),
        forall|k: int| j <= k < i && #[trigger] is_child(ns, a, k) ==> !is_rust_body_kind(
            ns[k].kind,
        ),
    ensures
        signature_end(ns, Lang::Rust, a, j) == row_of_body(ns, i),
    decreases i - j,
{
    lemma_rust_inner(ns, true, a, j);
    assert(ns[j].depth > ns[a].depth);
    if j < i {
        lemma_rust_end(ns, a, i, j + 1);
    }
}

proof fn lemma_rust_no_body(ns: Seq<NodeView>, a: int, j: int)
    requires
        is_tree(ns),
        0 <= a < j,
        forall|k: int| j <= k && #[trigger] is_child(ns, a, k) ==> !is_rust_body_kind(ns[k].kind),
    ensures
        signature_end(ns, Lang::Rust, a, j) == ns[a].end_row,
    decreases ns.len() - j,
{
    if j < ns.len() && ns[j].depth > ns[a].depth {
        lemma_rust_inner(ns, true, a, j);
        lemma_rust_no_body(ns, a, j + 1);
    }
}

/// The signature of a Rust definition ends in front of its body: on the row on which what stands
/// in front of the body ends. Where a definition has no body, the signature is all of it.
pub proof fn law_a_rust_signature_ends_in_front_of_the_body(ns: Seq<NodeView>, a: int, i: int)
    requires
        is_tree(ns),
        0 <= a,
        forall|k: int| k < i && #[trigger] is_child(ns, a, k) ==> !is_rust_body_kind(ns[k].kind),
    ensures
        is_child(ns, a, i) && is_rust_body_kind(ns[i].kind) && i > a + 1 ==> signature_end(
            ns,
            Lang::Rust,
            a,
            a + 1,
        ) == (if ns[i - 1].depth < ns[i].depth {
            ns[i - 1].start_row
        } else {
            ns[i - 1].end_row
        }),
        i >= ns.len() ==> signature_end(ns, Lang::Rust, a, a + 1) == ns[a].end_row,
{
    if is_child(ns, a, i) && is_rust_body_kind(ns[i].kind) {
        lemma_rust_end(ns, a, i, a + 1);
    }
    if i >= ns.len() {
        lemma_rust_no_body(ns, a, a + 1);
    }
}

proof fn lemma_rust_name(ns: Seq<NodeView>, source: Seq<char>, a: int, i: int, j: int)
    requires
        is_tree(ns),
        0 <= a < j <= i < ns.len(),
        is_child(ns, a, i),
        text::contains_text(ns[i].kind, "identifier"@) || ns[i].kind == "name"@,
        ns[i].kind != "="@,
        text_between(source, ns[i].start_byte, ns[i].end_byte) is Some,
        forall|k: int| j <= k < i && #[trigger] is_child(ns, a, k) ==> ns[k].kind != "="@ && !(
        text::contains_text(ns[k].kind, "identifier"@) || ns[k].kind == "name"@),
    ensures
        name_below(ns, source, Lang::Rust, a, j) == text_between(
            source,
            ns[i].start_byte,
            ns[i].end_byte,
        )->0,
    decreases i - j,
{
    lemma_rust_inner(ns, false, a, j);
    assert(ns[j].depth > ns[a].depth);
    if j < i {
        lemma_rust_name(ns, source, a, i, j + 1);
    }
}

/// The name of a Rust symbol is the text of the first child of the definition that is an
/// identifier, its line that on which the definition begins, and its kind that of the definition.
pub proof fn law_a_rust_symbol_has_the_name_of_its_identifier(
    ns: Seq<NodeView>,
    source: Seq<char>,
    a: int,
    i: int,
    from: int,
    to: int,
)
    requires
        is_tree(ns),
        0 <= a,
        is_child(ns, a, i),
        text::contains_text(ns[i].kind, "identifier"@) || ns[i].kind == "name"@,
        ns[i].kind != "="@,
        forall|k: int| k < i && #[trigger] is_child(ns, a, k) ==> ns[k].kind != "="@ && !(
        text::contains_text(ns[k].kind, "identifier"@) || ns[k].kind == "name"@),
        0 <= from <= to <= source.len(),
        ns[i].start_byte == text::byte_len(source.take(from)),
        ns[i].end_byte == text::byte_len(source.take(to)),
    ensures
        symbol_at(ns, source, Lang::Rust, a) == (
            source.subrange(from, to),
            ns[a].start_row + 1,
            ns[a].kind,
        ),
{
    law_text_between_byte_offsets(source, from, to);
    lemma_rust_name(ns, source, a, i, a + 1);
}

proof fn lemma_bytes_grow(s: Seq<char>, a: int, b: int)
    requires
        0 <= a < b <= s.len(),
    ensures
        text::byte_len(s.take(a)) < text::byte_len(s.take(b)),
    decreases b - a,
{
    text::lemma_byte_len_take(s, b - 1);
    if a < b - 1 {
        lemma_bytes_grow(s, a, b - 1);
    }
}

/// The text between the byte offsets of two positions is the text between the positions.
pub proof fn law_text_between_byte_offsets(s: Seq<char>, from: int, to: int)
    requires
        0 <= from <= to <= s.len(),
    ensures
        text_between(s, text::byte_len(s.take(from)), text::byte_len(s.take(to))) == Some(
            s.subrange(from, to),
        ),
{
    lemma_position(s, from);
    lemma_position(s, to);
}

proof fn lemma_position(s: Seq<char>, i: int)
    requires
        0 <= i <= s.len(),
    ensures
        position_at(s, text::byte_len(s.take(i))) == Some(i),
{
    let byte = text::byte_len(s.take(i));
    let j = choose|j: int| 0 <= j <= s.len() && text::byte_len(#[trigger] s.take(j)) == byte;
    assert(text::byte_len(s.take(i)) == byte);
    if j < i {
        lemma_bytes_grow(s, j, i);
    } else if i < j {
        lemma_bytes_grow(s, i, j);
    }
}

/// A file is read as the language of its extension, and of no other.
pub proof fn law_languages_go_by_their_extensions(e: Seq<char>)
    ensures
        language_of(Some(e)) == Some(Lang::Rust) <==> e == "rs"@,
        language_of(Some(e)) == Some(Lang::TypeScript) <==> e == "ts"@ || e == "tsx"@,
        language_of(Some(e)) == Some(Lang::Python) <==> e == "py"@,
        language_of(Some(e)) == Some(Lang::Go) <==> e == "go"@,
        language_of(None) is None,
{
    reveal_strlit("rs");
    reveal_strlit("ts");
    reveal_strlit("tsx");
    reveal_strlit("py");
    reveal_strlit("go");
    assert("rs"@[0] == 'r' && "ts"@[0] == 't' && "py"@[0] == 'p' && "go"@[0] == 'g');
    assert("rs"@.len() == 2 && "tsx"@.len() == 3 && "py"@.len() == 2 && "go"@.len() == 2);
}

/// Each language has its own grammar.
pub proof fn law_each_language_has_its_grammar(source: Seq<char>)
    ensures
        tree_of(source, Lang::Rust) == rust_tree(source),
        tree_of(source, Lang::TypeScript) == typescript_tree(source),
        tree_of(source, Lang::Python) == python_tree(source),
        tree_of(source, Lang::Go) == go_tree(source),
{
}

proof fn lemma_inner_of_wrapped(
    ns: Seq<NodeView>,
    lang: Lang,
    body: bool,
    a: int,
    c: int,
    i: int,
)
    requires
        is_child(ns, a, c),
        carries(lang, ns[c].kind, body),
        stands_above(ns, c, i),
    ensures
        is_inner(ns, lang, body, a, i) == is_inner(ns, lang, body, c, i),
        stands_above(ns, a, i),
{
    assert(stands_above(ns, a, i)) by {
        assert forall|j: int| a < j <= i implies ns[a].depth < (#[trigger] ns[j]).depth by {
            if j > c {
                assert(ns[c].depth < ns[j].depth);
            }
        }
    }
    assert(is_ancestor(ns, a, i) && is_ancestor(ns, c, i));
    if is_inner(ns, lang, body, a, i) {
        assert forall|b: int| c < b && #[trigger] is_ancestor(ns, b, i) implies carries(
            lang,
            ns[b].kind,
            body,
        ) by {}
    }
    if is_inner(ns, lang, body, c, i) {
        assert forall|b: int| a < b && #[trigger] is_ancestor(ns, b, i) implies carries(
            lang,
            ns[b].kind,
            body,
        ) by {
            if b < c {
                assert(ns[c].depth > ns[b].depth);
                assert(ns[b].depth > ns[a].depth);
            }
        }
    }
}

proof fn lemma_wrapped_name(
    ns: Seq<NodeView>,
    source: Seq<char>,
    lang: Lang,
    a: int,
    c: int,
    i: int,
)
    requires
        is_child(ns, a, c),
        carries(lang, ns[c].kind, false),
        c < i <= ns.len(),
        forall|j: int| c < j < i ==> (#[trigger] ns[j]).depth > ns[c].depth,
        name_below(ns, source, lang, c, i) != "anonymous"@,
    ensures
        name_below(ns, source, lang, a, i) == name_below(ns, source, lang, c, i),
    decreases ns.len() - i,
{
    assert(i < ns.len() && ns[i].depth > ns[c].depth);
    assert(stands_above(ns, c, i));
    lemma_inner_of_wrapped(ns, lang, false, a, c, i);
    if is_inner(ns, lang, false, c, i) && ns[i].kind == "="@ {
    } else if is_inner(ns, lang, false, c, i) && is_name_kind(ns[i].kind) && text_between(
        source,
        ns[i].start_byte,
        ns[i].end_byte,
    ) is Some {
    } else {
        lemma_wrapped_name(ns, source, lang, a, c, i + 1);
    }
}

/// The kinds of definitions that another definition may wrap, by name: what is exported in
/// TypeScript, and what is decorated in Python.
pub open spec fn is_wrapped_kind(lang: Lang, k: Seq<char>) -> bool {
    match lang {
        Lang::TypeScript => k == "function_declaration"@ || k == "class_declaration"@ || k
            == "interface_declaration"@ || k == "type_alias_declaration"@ || k
            == "enum_declaration"@ || k == "lexical_declaration"@,
        Lang::Python => k == "function_definition"@ || k == "class_definition"@,
        Lang::Go => k == "var_spec"@ || k == "const_spec"@ || k == "type_spec"@,
        Lang::Rust => false,
    }
}

proof fn lemma_name_up_to(
    ns: Seq<NodeView>,
    source: Seq<char>,
    lang: Lang,
    a: int,
    c: int,
    j: int,
)
    requires
        is_child(ns, a, c),
        a < j <= c,
        forall|k: int|
            a < k < c ==> !is_name_kind((#[trigger] ns[k]).kind) && ns[k].kind != "="@,
    ensures
        name_below(ns, source, lang, a, j) == name_below(ns, source, lang, a, c),
    decreases c - j,
{
    if j < c {
        assert(ns[j].depth > ns[a].depth);
        assert(!is_name_kind(ns[j].kind) && ns[j].kind != "="@);
        lemma_name_up_to(ns, source, lang, a, c, j + 1);
    }
}

/// A definition that wraps another one has its name: exported, decorated and grouped definitions
/// are listed under the name of what they hold.
pub proof fn law_wrapped_definitions_give_their_name(
    ns: Seq<NodeView>,
    source: Seq<char>,
    lang: Lang,
    a: int,
    c: int,
)
    requires
        is_child(ns, a, c),
        is_wrapped_kind(lang, ns[c].kind),
        forall|k: int|
            a < k <= c ==> !is_name_kind((#[trigger] ns[k]).kind) && ns[k].kind != "="@,
        symbol_at(ns, source, lang, c).0 != "anonymous"@,
    ensures
        symbol_at(ns, source, lang, a).0 == symbol_at(ns, source, lang, c).0,
{
    assert(carries(lang, ns[c].kind, false));
    lemma_name_up_to(ns, source, lang, a, c, a + 1);
    assert(ns[c].depth > ns[a].depth);
    assert(!is_name_kind(ns[c].kind) && ns[c].kind != "="@);
    lemma_wrapped_name(ns, source, lang, a, c, c + 1);
}

proof fn lemma_wrapped_end(ns: Seq<NodeView>, lang: Lang, a: int, c: int, i: int, b: int)
    requires
        is_child(ns, a, c),
        carries(lang, ns[c].kind, true),
        c < i <= b < ns.len(),
        stands_above(ns, c, b),
        is_inner(ns, lang, true, c, b),
        is_body(lang, ns[b].kind),
    ensures
        signature_end(ns, lang, a, i) == signature_end(ns, lang, c, i),
    decreases b - i,
{
    assert(ns[i].depth > ns[c].depth);
    assert(stands_above(ns, c, i));
    lemma_inner_of_wrapped(ns, lang, true, a, c, i);
    if i < b && !(is_inner(ns, lang, true, c, i) && is_body(lang, ns[i].kind)) {
        lemma_wrapped_end(ns, lang, a, c, i + 1, b);
    }
}

proof fn lemma_end_up_to(ns: Seq<NodeView>, lang: Lang, a: int, c: int, j: int)
    requires
        is_child(ns, a, c),
        a < j <= c,
        forall|k: int| a < k < c ==> !is_body(lang, (#[trigger] ns[k]).kind),
    ensures
        signature_end(ns, lang, a, j) == signature_end(ns, lang, a, c),
    decreases c - j,
{
    if j < c {
        assert(ns[j].depth > ns[a].depth);
        assert(!is_body(lang, ns[j].kind));
        lemma_end_up_to(ns, lang, a, c, j + 1);
    }
}

/// The body of a wrapped definition is left out of the skeleton: the signature of what wraps it
/// ends where its own does. Node `b` is the body.
pub proof fn law_bodies_of_wrapped_definitions_are_left_out(
    ns: Seq<NodeView>,
    lang: Lang,
    a: int,
    c: int,
    b: int,
)
    requires
        is_child(ns, a, c),
        is_wrapped_kind(lang, ns[c].kind),
        forall|k: int| a < k <= c ==> !is_body(lang, (#[trigger] ns[k]).kind),
        is_child(ns, c, b),
        is_body(lang, ns[b].kind),
    ensures
        signature_end(ns, lang, a, a + 1) == signature_end(ns, lang, c, c + 1),
{
    assert(carries(lang, ns[c].kind, true));
    assert(is_inner(ns, lang, true, c, b)) by {
        assert(is_ancestor(ns, c, b));
        assert forall|p: int| c < p && #[trigger] is_ancestor(ns, p, b) implies carries(
            lang,
            ns[p].kind,
            true,
        ) by {
            assert(ns[p].depth > ns[c].depth);
            assert(ns[b].depth > ns[p].depth);
        }
    }
    lemma_end_up_to(ns, lang, a, c, a + 1);
    assert(ns[c].depth > ns[a].depth);
    assert(!is_body(lang, ns[c].kind));
    lemma_wrapped_end(ns, lang, a, c, c + 1, b);
}

/// The kinds of bodies of each language, by name.
pub open spec fn is_body_kind(lang: Lang, k: Seq<char>) -> bool {
    match lang {
        Lang::Rust => is_rust_body_kind(k),
        Lang::TypeScript => k == "statement_block"@ || k == "class_body"@,
        Lang::Python => k == "block"@,
        Lang::Go => k == "block"@,
    }
}

proof fn lemma_direct_end(ns: Seq<NodeView>, lang: Lang, a: int, i: int, j: int)
    requires
        is_child(ns, a, i),
        a < j <= i,
        is_body_kind(lang, ns[i].kind),
        forall|k: int| j <= k < i ==> !is_body_kind(lang, (#[trigger] ns[k]).kind),
    ensures
        signature_end(ns, lang, a, j) == row_of_body(ns, i),
    decreases i - j,
{
    assert(ns[j].depth > ns[a].depth);
    if j < i {
        assert(!is_body_kind(lang, ns[j].kind));
        lemma_direct_end(ns, lang, a, i, j + 1);
    } else {
        lemma_child_is_inner(ns, lang, true, a, i);
    }
}

proof fn lemma_child_is_inner(ns: Seq<NodeView>, lang: Lang, body: bool, a: int, i: int)
    requires
        is_child(ns, a, i),
    ensures
        is_inner(ns, lang, body, a, i),
{
    assert(is_ancestor(ns, a, i));
    assert forall|b: int| a < b && #[trigger] is_ancestor(ns, b, i) implies carries(
        lang,
        ns[b].kind,
        body,
    ) by {
        assert(ns[b].depth > ns[a].depth);
        assert(ns[i].depth > ns[b].depth);
    }
}

/// In every language the signature of a definition ends in front of its body: on the row on which
/// what stands in front of the body ends.
pub proof fn law_a_signature_ends_in_front_of_the_body(
    ns: Seq<NodeView>,
    lang: Lang,
    a: int,
    i: int,
)
    requires
        is_child(ns, a, i),
        i > a + 1,
        is_body_kind(lang, ns[i].kind),
        forall|k: int| a < k < i ==> !is_body_kind(lang, (#[trigger] ns[k]).kind),
        ns[i - 1].depth >= ns[i].depth,
    ensures
        signature_end(ns, lang, a, a + 1) == ns[i - 1].end_row,
{
    lemma_direct_end(ns, lang, a, i, a + 1);
}

proof fn lemma_direct_name(
    ns: Seq<NodeView>,
    source: Seq<char>,
    lang: Lang,
    a: int,
    i: int,
    j: int,
)
    requires
        is_child(ns, a, i),
        a < j <= i,
        text::contains_text(ns[i].kind, "identifier"@) || ns[i].kind == "name"@,
        ns[i].kind != "="@,
        text_between(source, ns[i].start_byte, ns[i].end_byte) is Some,
        forall|k: int|
            j <= k < i ==> (#[trigger] ns[k]).kind != "="@ && !(text::contains_text(
                ns[k].kind,
                "identifier"@,
            ) || ns[k].kind == "name"@),
    ensures
        name_below(ns, source, lang, a, j) == text_between(
            source,
            ns[i].start_byte,
            ns[i].end_byte,
        )->0,
    decreases i - j,
{
    assert(ns[j].depth > ns[a].depth);
    if j < i {
        assert(ns[j].kind != "="@);
        lemma_direct_name(ns, source, lang, a, i, j + 1);
    } else {
        lemma_child_is_inner(ns, lang, false, a, i);
    }
}

/// In every language a symbol has the text of the identifier of its definition for a name, the
/// line on which the definition begins, and its kind.
pub proof fn law_a_symbol_has_the_name_of_its_identifier(
    ns: Seq<NodeView>,
    source: Seq<char>,
    lang: Lang,
    a: int,
    i: int,
    from: int,
    to: int,
)
    requires
        is_child(ns, a, i),
        text::contains_text(ns[i].kind, "identifier"@) || ns[i].kind == "name"@,
        ns[i].kind != "="@,
        forall|k: int|
            a < k < i ==> (#[trigger] ns[k]).kind != "="@ && !(text::contains_text(
                ns[k].kind,
                "identifier"@,
            ) || ns[k].kind == "name"@),
        0 <= from <= to <= source.len(),
        ns[i].start_byte == text::byte_len(source.take(from)),
        ns[i].end_byte == text::byte_len(source.take(to)),
    ensures
        symbol_at(ns, source, lang, a) == (
            source.subrange(from, to),
            ns[a].start_row + 1,
            ns[a].kind,
        ),
{
    law_text_between_byte_offsets(source, from, to);
    lemma_direct_name(ns, source, lang, a, i, a + 1);
}

/// There is one symbol for each reported node, in their order, with its line and its kind.
pub proof fn law_there_is_one_symbol_for_each_definition(
    ns: Seq<NodeView>,
    source: Seq<char>,
    lang: Lang,
)
    ensures
        symbols_in(ns, source, lang).len() == reported(ns, lang, false, ns.len()).len(),
        forall|k: int|
            0 <= k < symbols_in(ns, source, lang).len() ==> (#[trigger] symbols_in(
                ns,
                source,
                lang,
            )[k]).1 == ns[reported(ns, lang, false, ns.len())[k]].start_row + 1 && symbols_in(
                ns,
                source,
                lang,
            )[k].2 == ns[reported(ns, lang, false, ns.len())[k]].kind,
{
}

proof fn lemma_skeleton_entries(
    ns: Seq<NodeView>,
    lines: Seq<Seq<char>>,
    lang: Lang,
    d: Seq<int>,
    entries: Seq<Seq<char>>,
)
    requires
        entries.len() == d.len(),
        forall|k: int|
            0 <= k < d.len() ==> #[trigger] entries[k] == skeleton_entry(ns, lines, lang, d[k]),
    ensures
        skeleton_entries(ns, lines, lang, d) == text::concatenated(entries),
    decreases d.len(),
{
    if d.len() > 0 {
        assert forall|k: int| 0 <= k < d.drop_last().len() implies #[trigger] entries.drop_last()[k]
            == skeleton_entry(ns, lines, lang, d.drop_last()[k]) by {
            assert(entries.drop_last()[k] == entries[k]);
        }
        lemma_skeleton_entries(ns, lines, lang, d.drop_last(), entries.drop_last());
        assert(entries[d.len() - 1] == entries.last());
    }
}

/// A skeleton is made of the line number and the signature of each reported node, one behind the
/// other, and nothing else. Without any there is a note.
pub proof fn law_a_skeleton_is_line_numbers_and_signatures(
    ns: Seq<NodeView>,
    source: Seq<char>,
    lang: Lang,
)
    ensures
        ({
            let d = reported(ns, lang, true, ns.len());
            let entries = Seq::new(
                d.len(),
                |k: int|
                    "// L"@ + text::decimal(ns[d[k]].start_row + 1) + "\n"@ + signature(
                        text::lines_of(source),
                        ns[d[k]].start_row as int,
                        signature_end(ns, lang, d[k], d[k] + 1),
                    ) + "\n\n"@,
            );
            &&& d.len() > 0 ==> skeleton_in(ns, source, lang) == text::concatenated(entries)
            &&& d.len() == 0 ==> skeleton_in(ns, source, lang)
                == "// (skeleton: no top-level definitions found)\n"@
        }),
{
    let d = reported(ns, lang, true, ns.len());
    let entries = Seq::new(
        d.len(),
        |k: int|
            "// L"@ + text::decimal(ns[d[k]].start_row + 1) + "\n"@ + signature(
                text::lines_of(source),
                ns[d[k]].start_row as int,
                signature_end(ns, lang, d[k], d[k] + 1),
            ) + "\n\n"@,
    );
    lemma_skeleton_entries(ns, text::lines_of(source), lang, d, entries);
}

/// The signature from one row to another is the lines of these rows as they are, where the last
/// of them ends with something visible.
pub proof fn law_a_signature_is_its_lines(lines: Seq<Seq<char>>, from: int, to: int)
    requires
        0 <= from <= to < lines.len(),
        lines[to].len() > 0,
        !text::is_white(lines[to].last()),
    ensures
        signature(lines, from, to) == text::joined(lines.subrange(from, to + 1), "\n"@),
{
    let part = lines.subrange(from, to + 1);
    let all = text::joined(part, "\n"@);
    assert(part.last() == lines[to]);
    assert(all.len() > 0 && all.last() == lines[to].last());
}

/// A source without its comments is made of lines of which no two neighbours are blank.
pub proof fn law_stripped_sources_have_no_two_blank_lines_in_a_row(
    ns: Seq<NodeView>,
    source: Seq<char>,
) -> (lines: Seq<Seq<char>>)
    ensures
        text::concatenated(lines) == stripped_in(ns, source),
        forall|i: int, c: int|
            0 <= i < lines.len() && 0 <= c < lines[i].len() - 1 ==> #[trigger] lines[i][c] != '\n',
        forall|i: int| 0 <= i < lines.len() - 1 ==> (#[trigger] lines[i]).len() > 0
            && lines[i].last() == '\n',
        forall|i: int|
            0 < i < lines.len() ==> !(text::is_blank(#[trigger] lines[i]) && text::is_blank(
                lines[i - 1],
            )),
{
    let rest = uncommented(ns, source, source.len());
    let all = text::segments_of(rest);
    let lines = collapsed(all, all.len());
    law_no_two_blank_lines_in_a_row(all, all.len());
    text::lemma_segments_hold_one_line(rest, 0);
    text::lemma_segments_make_up_the_text(rest, 0);
    assert forall|i: int, c: int|
        0 <= i < lines.len() && 0 <= c < lines[i].len() - 1 implies #[trigger] lines[i][c]
        != '\n' by {
        let k = lemma_collapsed_line(all, all.len(), i);
        assert(all[k][c] != '\n');
    }
    assert forall|i: int| 0 <= i < lines.len() - 1 implies (#[trigger] lines[i]).len() > 0
        && lines[i].last() == '\n' by {
        let k = lemma_collapsed_line(all, all.len(), i);
        assert(all[k].last() == '\n');
    }
    lines
}

proof fn lemma_collapsed_line(lines: Seq<Seq<char>>, n: nat, i: int) -> (k: int)
    requires
        n <= lines.len(),
        0 <= i < collapsed(lines, n).len(),
    ensures
        i <= k < n,
        collapsed(lines, n)[i] == lines[k],
        i < collapsed(lines, n).len() - 1 ==> k < n - 1,
    decreases n,
{
    let before = collapsed(lines, (n - 1) as nat);
    if i < before.len() {
        lemma_collapsed_line(lines, (n - 1) as nat, i)
    } else {
        lemma_collapsed_len(lines, (n - 1) as nat);
        n - 1
    }
}

proof fn lemma_collapsed_len(lines: Seq<Seq<char>>, n: nat)
    ensures
        collapsed(lines, n).len() <= n,
    decreases n,
{
    if n > 0 {
        lemma_collapsed_len(lines, (n - 1) as nat);
    }
}

/// Nodes and symbols are listed one by one, with what each of them holds.
pub proof fn law_nodes_and_symbols_are_listed_one_by_one(
    nodes: Seq<SyntaxNode>,
    i: int,
    symbols: Seq<Symbol>,
    k: int,
)
    requires
        0 <= i < nodes.len(),
        0 <= k < symbols.len(),
    ensures
        node_views(nodes).len() == nodes.len(),
        node_views(nodes)[i].depth == nodes[i].depth,
        node_views(nodes)[i].kind == nodes[i].kind@,
        node_views(nodes)[i].start_byte == nodes[i].start_byte,
        node_views(nodes)[i].end_byte == nodes[i].end_byte,
        node_views(nodes)[i].start_row == nodes[i].start_row,
        node_views(nodes)[i].end_row == nodes[i].end_row,
        symbol_views(symbols).len() == symbols.len(),
        symbol_views(symbols)[k] == (symbols[k].name@, symbols[k].line as nat, symbols[k].kind@),
{
}

/// What is kept of a source goes by its tree. A source without a tree is given as it is, its
/// skeleton behind a notice, and it has no symbols.
pub proof fn law_sources_go_by_their_tree(source: Seq<char>, lang: Lang, ns: Seq<NodeView>)
    ensures
        tree_of(source, lang) == Some(ns) ==> stripped(source, lang) == stripped_in(ns, source)
            && skeleton_of(source, lang) == skeleton_in(ns, source, lang) && symbols_of(source, lang)
            == symbols_in(ns, source, lang),
        tree_of(source, lang) is None ==> stripped(source, lang) == source && skeleton_of(
            source,
            lang,
        ) == "// parse failed\n"@ + source && symbols_of(source, lang).len() == 0,
{
}

} // verus!
