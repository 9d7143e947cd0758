use klaar::parser::{
    detect_language, extract_skeleton, extract_symbols, skeleton_of_tree, strip_comments, strip_tree,
    symbols_of_tree, Lang, Symbol, SyntaxNode,
};

fn shown(symbols: &[Symbol]) -> Vec<(String, u64, String)> {
    symbols.iter().map(|s| (s.name.clone(), s.line, s.kind.clone())).collect()
}

fn sym(name: &str, line: u64, kind: &str) -> (String, u64, String) {
    (name.to_string(), line, kind.to_string())
}

fn node(depth: u32, kind: &str, bytes: (u32, u32), rows: (u32, u32)) -> SyntaxNode {
    SyntaxNode {
        depth,
        kind: kind.to_string(),
        start_byte: bytes.0,
        end_byte: bytes.1,
        start_row: rows.0,
        end_row: rows.1,
    }
}

const RUST: &str = "// A module.
use std::fmt;

/* block */
pub struct Point {
    x: u32, // the abscissa
}

impl Point {
    pub fn new(
        x: u32,
    ) -> Self {
        fn helper() {}
        Point { x }
    }
}

fn main() { println!(\"// no comment\"); }
";

#[test]
fn languages_go_by_extension() {
    assert_eq!(detect_language("a/b.rs"), Some(Lang::Rust));
    assert_eq!(detect_language("b.ts"), Some(Lang::TypeScript));
    assert_eq!(detect_language("b.tsx"), Some(Lang::TypeScript));
    assert_eq!(detect_language("b.py"), Some(Lang::Python));
    assert_eq!(detect_language("b.go"), Some(Lang::Go));
    assert_eq!(detect_language("b.RS"), None);
    assert_eq!(detect_language(".rs"), None);
    assert_eq!(detect_language("Makefile"), None);
}

#[test]
fn rust_symbols() {
    assert_eq!(
        shown(&extract_symbols(RUST, Lang::Rust)),
        vec![
            sym("std::fmt", 2, "use_declaration"),
            sym("Point", 5, "struct_item"),
            sym("main", 18, "function_item"),
        ]
    );
}

#[test]
fn rust_skeleton() {
    assert_eq!(
        extract_skeleton(RUST, Lang::Rust),
        "// L2\nuse std::fmt;\n\n// L5\npub struct Point {\n\n// L10\n    pub fn new(\n        x: u32,\n    ) -> Self {\n\n// L18\nfn main() { println!(\"// no comment\"); }\n\n"
    );
}

#[test]
fn rust_comments_are_stripped() {
    assert_eq!(
        strip_comments(RUST, Lang::Rust),
        "\nuse std::fmt;\n\npub struct Point {\n    x: u32, \n}\n\nimpl Point {\n    pub fn new(\n        x: u32,\n    ) -> Self {\n        fn helper() {}\n        Point { x }\n    }\n}\n\nfn main() { println!(\"// no comment\"); }\n"
    );
}

#[test]
fn multibyte_sources_keep_their_characters() {
    let source = "fn grüße() {} // süß\nfn b() {}\n";
    assert_eq!(strip_comments(source, Lang::Rust), "fn grüße() {} \nfn b() {}\n");
    assert_eq!(
        shown(&extract_symbols(source, Lang::Rust)),
        vec![sym("grüße", 1, "function_item"), sym("b", 2, "function_item")]
    );
}

#[test]
fn typescript_symbols_and_skeleton() {
    let source = "// header\nfunction add(a: number) {\n  return a;\n}\nclass Box {\n  x = 1;\n}\n";
    assert_eq!(
        shown(&extract_symbols(source, Lang::TypeScript)),
        vec![sym("add", 2, "function_declaration"), sym("Box", 5, "class_declaration")]
    );
    assert_eq!(
        extract_skeleton(source, Lang::TypeScript),
        "// L2\nfunction add(a: number) {\n\n// L5\nclass Box {\n\n"
    );
    assert!(strip_comments(source, Lang::TypeScript).starts_with("\nfunction add"));
}

#[test]
fn python_symbols_and_skeleton() {
    let source = "# comment\ndef f(x):\n    return x\n\nclass C:\n    def m(self):\n        pass\n";
    assert_eq!(
        shown(&extract_symbols(source, Lang::Python)),
        vec![sym("f", 2, "function_definition"), sym("C", 5, "class_definition")]
    );
    assert_eq!(extract_skeleton(source, Lang::Python), "// L2\ndef f(x):\n\n// L5\nclass C:\n\n");
    assert_eq!(
        strip_comments(source, Lang::Python),
        "\ndef f(x):\n    return x\n\nclass C:\n    def m(self):\n        pass\n"
    );
}

#[test]
fn go_symbols_and_skeleton() {
    let source = "package main\n\n// Doc.\nfunc Add(a int) int {\n\treturn a\n}\n\nvar x = 1\n";
    assert_eq!(
        shown(&extract_symbols(source, Lang::Go)),
        vec![sym("Add", 4, "function_declaration"), sym("x", 8, "var_declaration")]
    );
    assert_eq!(
        extract_skeleton(source, Lang::Go),
        "// L4\nfunc Add(a int) int {\n\n// L8\nvar x = 1\n\n"
    );
    assert!(!strip_comments(source, Lang::Go).contains("Doc"));
}

#[test]
fn a_source_without_definitions_has_a_note() {
    assert_eq!(
        extract_skeleton("", Lang::Rust),
        "// (skeleton: no top-level definitions found)\n"
    );
    assert!(extract_symbols("", Lang::Python).is_empty());
    assert_eq!(strip_comments("", Lang::Go), "");
}

#[test]
fn definitions_are_reported_only_below_open_nodes() {
    let nodes = vec![
        node(0, "source_file", (0, 30), (0, 3)),
        node(1, "function_item", (0, 10), (0, 0)),
        node(2, "identifier", (3, 4), (0, 0)),
        node(2, "block", (5, 10), (0, 0)),
        node(3, "function_item", (6, 9), (0, 0)),
        node(1, "expression", (11, 20), (1, 1)),
        node(2, "function_item", (12, 19), (1, 1)),
        node(1, "mod_item", (21, 30), (2, 3)),
        node(2, "struct_item", (22, 29), (3, 3)),
    ];
    let source = "fn f() {}  xxxxxxxxx mod m {x}";
    assert_eq!(
        shown(&symbols_of_tree(&nodes, source, Lang::Rust)),
        vec![sym("f", 1, "function_item"), sym("anonymous", 4, "struct_item")]
    );
}

#[test]
fn signatures_end_in_front_of_the_body() {
    let nodes = vec![
        node(0, "source_file", (0, 40), (0, 4)),
        node(1, "function_item", (0, 40), (0, 4)),
        node(2, "parameters", (5, 10), (0, 2)),
        node(2, "block", (20, 40), (3, 4)),
    ];
    let source = "fn f(\n  a: u8,\n)\n{\n}\n";
    assert_eq!(skeleton_of_tree(&nodes, source, Lang::Rust), "// L1\nfn f(\n  a: u8,\n)\n\n");
    // Rows behind the last line are left out.
    let beyond = vec![
        node(0, "source_file", (0, 1), (0, 9)),
        node(1, "use_declaration", (0, 1), (0, 9)),
        node(1, "use_declaration", (0, 1), (7, 9)),
    ];
    assert_eq!(skeleton_of_tree(&beyond, "a\nb  ", Lang::Rust), "// L1\na\nb\n\n// L8\n\n\n");
}

#[test]
fn only_outermost_comments_count() {
    let nodes = vec![
        node(0, "source_file", (0, 9), (0, 0)),
        node(1, "line_comment", (2, 5), (0, 0)),
        node(2, "doc_comment", (3, 9), (0, 0)),
    ];
    assert_eq!(strip_tree(&nodes, "abcdefghi"), "abfghi");
}

#[test]
fn runs_of_blank_lines_are_cut_to_one() {
    let nodes: Vec<SyntaxNode> = Vec::new();
    assert_eq!(strip_tree(&nodes, "a\n\n  \n\nb\n\nc\n\n\n"), "a\n\nb\n\nc\n\n");
}

#[test]
fn methods_and_members_of_modules_are_in_the_skeleton() {
    let source = "struct A;\nimpl A {\n    fn one(&self) {}\n    pub fn two() -> A {\n        A\n    }\n}\nmod m {\n    pub const X: u8 = 1;\n    mod n {\n        fn deep() {}\n    }\n}\n";
    assert_eq!(
        shown(&extract_symbols(source, Lang::Rust)),
        vec![sym("A", 1, "struct_item")]
    );
    assert_eq!(
        extract_skeleton(source, Lang::Rust),
        "// L1\nstruct A;\n\n// L3\n    fn one(&self) {}\n\n// L4\n    pub fn two() -> A {\n\n// L9\n    pub const X: u8 = 1;\n\n// L11\n        fn deep() {}\n\n"
    );
}

#[test]
fn signatures_may_take_several_lines() {
    let source = "def f(\n    a,\n    b,\n):\n    return a\n";
    assert_eq!(
        extract_skeleton(source, Lang::Python),
        "// L1\ndef f(\n    a,\n    b,\n):\n\n"
    );
    let source = "fn f<T>(\n    a: T,\n) -> T\nwhere\n    T: Copy,\n{\n    a\n}\n";
    assert_eq!(
        extract_skeleton(source, Lang::Rust),
        "// L1\nfn f<T>(\n    a: T,\n) -> T\nwhere\n    T: Copy,\n\n"
    );
    assert_eq!(extract_skeleton("fn f()\n{\n}\n", Lang::Rust), "// L1\nfn f()\n\n");
}

#[test]
fn exported_definitions_have_their_names() {
    let source = "export function foo(a: number) {\n  return a;\n}\nexport class Box {\n  x = 1;\n}\nconst f = (a: number) => {\n  return a;\n};\nexport const g = 1;\n";
    assert_eq!(
        shown(&extract_symbols(source, Lang::TypeScript)),
        vec![
            sym("foo", 1, "export_statement"),
            sym("Box", 4, "export_statement"),
            sym("f", 7, "lexical_declaration"),
            sym("g", 10, "export_statement"),
        ]
    );
    assert_eq!(
        extract_skeleton(source, Lang::TypeScript),
        "// L1\nexport function foo(a: number) {\n\n// L4\nexport class Box {\n\n// L7\nconst f = (a: number) => {\n\n// L10\nexport const g = 1;\n\n"
    );
}

#[test]
fn decorated_definitions_have_their_names() {
    let source = "@cached\ndef f(x):\n    return x\n\n@frozen(True)\nclass C:\n    pass\n";
    assert_eq!(
        shown(&extract_symbols(source, Lang::Python)),
        vec![sym("f", 1, "decorated_definition"), sym("C", 5, "decorated_definition")]
    );
    assert_eq!(
        extract_skeleton(source, Lang::Python),
        "// L1\n@cached\ndef f(x):\n\n// L5\n@frozen(True)\nclass C:\n\n"
    );
}

#[test]
fn go_declarations_have_their_names() {
    let source = "package main\n\nconst Limit = 3\n\ntype Point struct {\n\tX int\n}\n\nfunc (p Point) Norm() int {\n\treturn p.X\n}\n";
    assert_eq!(
        shown(&extract_symbols(source, Lang::Go)),
        vec![
            sym("Limit", 3, "const_declaration"),
            sym("Point", 5, "type_declaration"),
            sym("Norm", 9, "method_declaration"),
        ]
    );
}

#[test]
fn a_source_without_comments_stays() {
    assert_eq!(strip_comments("fn a() {}\n", Lang::Rust), "fn a() {}\n");
    assert_eq!(strip_comments("fn a() {}", Lang::Rust), "fn a() {}");
    assert_eq!(strip_comments("fn a() {}\r\n\r\nfn b() {}\r\n", Lang::Rust), "fn a() {}\r\n\r\nfn b() {}\r\n");
}
