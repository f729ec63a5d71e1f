use context_slicer::inspector::{
    analyze_file, dedup_sorted, first_line_signature, pick_language, pick_query_set, sort_symbols,
    strip_string_quotes, ExtractError, Grammar, QuerySet, Symbol,
};

fn sym(name: &str, line: u32) -> Symbol {
    Symbol {
        name: name.to_string(),
        kind: "function".to_string(),
        line,
        line_end: line,
        signature: None,
    }
}

#[test]
fn signature_stops_at_brace_and_collapses_space() {
    assert_eq!(first_line_signature("fn   add(a: i32,\tb: i32) -> i32 {\n    a + b\n}"), "fn add(a: i32, b: i32) -> i32");
}

#[test]
fn signature_stops_at_newline() {
    assert_eq!(first_line_signature("def run(self):\n    pass"), "def run(self):");
}

#[test]
fn signature_is_capped() {
    let long = "x".repeat(500);
    assert_eq!(first_line_signature(&long).chars().count(), 240);
}

#[test]
fn signature_of_blank_text_is_empty() {
    assert_eq!(first_line_signature("   {"), "");
}

#[test]
fn quotes_are_stripped() {
    assert_eq!(strip_string_quotes("  \"./util\" "), "./util");
    assert_eq!(strip_string_quotes("'a'"), "a");
    assert_eq!(strip_string_quotes("`b`"), "b");
    assert_eq!(strip_string_quotes("'mixed\""), "'mixed\"");
    assert_eq!(strip_string_quotes("'"), "'");
}

#[test]
fn dedup_sorted_sorts_and_drops_repeats() {
    let v = vec!["b".to_string(), "a".to_string(), "b".to_string(), "C".to_string()];
    assert_eq!(dedup_sorted(v), vec!["C".to_string(), "a".to_string(), "b".to_string()]);
}

#[test]
fn symbols_sort_by_line_then_name() {
    let out = sort_symbols(vec![sym("zeta", 3), sym("beta", 1), sym("alpha", 3)]);
    let names: Vec<&str> = out.iter().map(|s| s.name.as_str()).collect();
    assert_eq!(names, vec!["beta", "alpha", "zeta"]);
}

#[test]
fn language_follows_extension_in_any_case() {
    assert_eq!(pick_language("src/lib.rs"), Some(Grammar::Rust));
    assert_eq!(pick_language("web/App.TSX"), Some(Grammar::Tsx));
    assert_eq!(pick_language("a/b.mjs"), Some(Grammar::JavaScript));
    assert_eq!(pick_language("types.d.ts"), Some(Grammar::TypeScript));
    assert_eq!(pick_language("tool.Py"), Some(Grammar::Python));
    assert_eq!(pick_language("README.md"), None);
    assert_eq!(pick_language("Makefile"), None);
    assert_eq!(pick_query_set("x.RS"), QuerySet::Plain);
    assert_eq!(pick_query_set("x.mts"), QuerySet::Plain);
    assert_eq!(pick_query_set("x.JSX"), QuerySet::Script);
}

#[test]
fn unsupported_extension_is_an_error() {
    assert_eq!(analyze_file("notes.txt", "hello").unwrap_err(), ExtractError::UnsupportedLanguage);
}

#[test]
fn script_file_scenario() {
    let src = "import { helper } from \"./util\";\n\nexport function alpha() {\n  return helper();\n}\n\nfunction beta() {\n  return 2;\n}\n\nclass Gamma {\n}\n";
    let fs = analyze_file("web\\src\\main.ts", src).unwrap();
    assert_eq!(fs.file, "web/src/main.ts");
    assert_eq!(fs.imports, vec!["./util".to_string()]);
    assert_eq!(fs.exports, vec!["alpha".to_string()]);
    let functions: Vec<(&str, u32)> = fs
        .symbols
        .iter()
        .filter(|s| s.kind == "function")
        .map(|s| (s.name.as_str(), s.line))
        .collect();
    assert_eq!(functions, vec![("alpha", 2), ("beta", 6)]);
    let classes: Vec<&str> = fs.symbols.iter().filter(|s| s.kind == "class").map(|s| s.name.as_str()).collect();
    assert_eq!(classes, vec!["Gamma"]);
    assert_eq!(fs.symbols.len(), 3);
    assert_eq!(fs.symbols[0].signature.as_deref(), Some("function alpha()"));
}

#[test]
fn rust_file_scenario() {
    let src = "use crate::util;\n\npub fn alpha() -> u32 {\n    1\n}\n\nfn beta() {}\n\nstruct Gamma {\n    x: u32,\n}\n";
    let fs = analyze_file("src/lib.rs", src).unwrap();
    assert_eq!(fs.imports, vec!["crate::util".to_string()]);
    assert_eq!(fs.exports, vec!["alpha".to_string()]);
    let got: Vec<(&str, &str, u32, u32)> = fs
        .symbols
        .iter()
        .map(|s| (s.name.as_str(), s.kind.as_str(), s.line, s.line_end))
        .collect();
    assert_eq!(got, vec![("alpha", "function", 2, 4), ("beta", "function", 6, 6), ("Gamma", "struct", 8, 10)]);
    assert_eq!(fs.symbols[0].signature.as_deref(), Some("pub fn alpha() -> u32"));
    assert_eq!(fs.symbols[2].signature, None);
}

#[test]
fn python_file_has_functions_and_classes() {
    let src = "class Box:\n    def open(self):\n        pass\n\ndef main():\n    pass\n";
    let fs = analyze_file("tool.py", src).unwrap();
    let got: Vec<(&str, &str)> = fs.symbols.iter().map(|s| (s.name.as_str(), s.kind.as_str())).collect();
    assert_eq!(got, vec![("Box", "class"), ("open", "function"), ("main", "function")]);
    assert!(fs.imports.is_empty());
}

#[test]
fn extraction_is_repeatable() {
    let src = "export const f = () => 1;\nexport { g };\nfunction g() {}\n";
    let a = analyze_file("m.js", src).unwrap();
    let b = analyze_file("m.js", src).unwrap();
    assert_eq!(format!("{:?}", a), format!("{:?}", b));
    assert_eq!(a.exports, vec!["f".to_string(), "g".to_string()]);
}

#[test]
fn recognised_file_without_queries_is_empty() {
    let fs = analyze_file("x.mts", "export function f() {}").unwrap();
    assert!(fs.symbols.is_empty() && fs.imports.is_empty() && fs.exports.is_empty());
}
