use context_slicer::paths::{
    clamp_label, is_allowed_ext, is_module_marker_file, join_path, module_label, normalize_module_id,
    normalize_path_for_output, parent_path, path_has_forbidden_component, rel_str, should_skip_dir_name,
};
use context_slicer::text::{compare_paths, compare_text, trim_str};

#[test]
fn deny_list_names() {
    for n in [".git", ".vscode", "node_modules", "dist", "build", "target", ".next", ".turbo", ".context-slicer", ".cargo"] {
        assert!(should_skip_dir_name(n), "{n}");
    }
    assert!(!should_skip_dir_name("src"));
    assert!(!should_skip_dir_name("Target"));
}

#[test]
fn denied_component_at_any_depth() {
    assert!(path_has_forbidden_component("/repo/a/node_modules/b/c.ts"));
    assert!(path_has_forbidden_component("target"));
    assert!(!path_has_forbidden_component("/repo/src/targets/x.rs"));
}

#[test]
fn allowed_extensions() {
    assert!(is_allowed_ext("/r/a.ts"));
    assert!(is_allowed_ext("/r/style.scss"));
    assert!(!is_allowed_ext("/r/a.py"));
    assert!(!is_allowed_ext("/r/.md"));
    assert!(!is_allowed_ext("/r/a.TS"));
    assert!(!is_allowed_ext("/r.d/Makefile"));
}

#[test]
fn module_markers() {
    assert!(is_module_marker_file("package.json"));
    assert!(is_module_marker_file("lib.rs"));
    assert!(!is_module_marker_file("index.py"));
}

#[test]
fn relative_paths() {
    assert_eq!(rel_str("/repo", "/repo/src/a.ts"), Some("src/a.ts".to_string()));
    assert_eq!(rel_str("/repo", "/repo"), Some(String::new()));
    assert_eq!(rel_str("/repo", "/repository/a"), None);
    assert_eq!(rel_str("/repo/", "/repo/x"), Some("x".to_string()));
    assert_eq!(normalize_module_id(""), ".");
    assert_eq!(normalize_module_id("src"), "src");
}

#[test]
fn labels() {
    assert_eq!(clamp_label(""), "(unnamed)");
    assert_eq!(clamp_label("x"), "x");
    assert_eq!(module_label("/w/repo", "/w/repo"), "repo");
    assert_eq!(module_label("/", "/"), "root");
    assert_eq!(module_label("/w/repo", "/w/repo/core"), "core");
}

#[test]
fn joins_and_parents() {
    assert_eq!(join_path("/repo", "src"), "/repo/src");
    assert_eq!(join_path("/repo/", "src"), "/repo/src");
    assert_eq!(join_path("/repo", "/abs"), "/abs");
    assert_eq!(parent_path("/repo/src/a.ts"), Some("/repo/src".to_string()));
    assert_eq!(parent_path("/a"), Some("/".to_string()));
    assert_eq!(parent_path("/"), None);
    assert_eq!(parent_path("a"), Some(String::new()));
    assert_eq!(normalize_path_for_output("a\\b\\c.rs"), "a/b/c.rs");
}

#[test]
fn text_and_path_order() {
    assert!(compare_text("a-b", "a/b") < 0);
    assert!(compare_paths("a/b", "a-b") < 0);
    assert!(compare_text("ab", "abc") < 0);
    assert_eq!(compare_text("same", "same"), 0);
    assert_eq!(trim_str("\u{3000} x y \n"), "x y");
}
