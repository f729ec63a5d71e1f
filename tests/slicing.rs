use context_slicer::scanner::{
    path_relative_to, scan_single_file, scan_workspace, should_exclude_path, FileEntry, ScanError,
    ScanOptions, WalkedFile,
};
use context_slicer::slicer::{estimate_tokens_from_bytes, plan_slice, select_within_budget, SliceConfig};
use context_slicer::xml_builder::build_context_xml;

fn entry(rel: &str, bytes: u64) -> FileEntry {
    FileEntry { abs_path: format!("/r/{rel}"), rel_path: rel.to_string(), bytes }
}

fn opts(max: u64, excluded: &[&str]) -> ScanOptions {
    ScanOptions {
        repo_root: "/r".to_string(),
        target: "src".to_string(),
        max_file_bytes: max,
        exclude_dir_names: excluded.iter().map(|s| s.to_string()).collect(),
    }
}

fn walked(path: &str, bytes: u64) -> WalkedFile {
    WalkedFile { abs_path: path.to_string(), bytes }
}

#[test]
fn target_root_joins_or_keeps_absolute() {
    assert_eq!(opts(1, &[]).target_root(), "/r/src");
    let mut o = opts(1, &[]);
    o.target = "/abs/t".to_string();
    assert_eq!(o.target_root(), "/abs/t");
}

#[test]
fn exclusion_by_component() {
    let names = vec!["dist".to_string()];
    assert!(should_exclude_path("/r/a/dist/x.js", &names));
    assert!(!should_exclude_path("/r/a/distx/x.js", &names));
    assert!(!should_exclude_path("/r/dist/x.js", &vec![]));
}

#[test]
fn relative_to_root() {
    assert_eq!(path_relative_to("/r/a/b", "/r"), Ok("a/b".to_string()));
    assert_eq!(path_relative_to("/x/a", "/r"), Err(ScanError::NotUnderRoot));
}

#[test]
fn scan_filters_and_sorts_by_path() {
    let w = vec![
        walked("/r/a-b.txt", 5),
        walked("/r/a/b.txt", 5),
        walked("/r/empty.txt", 0),
        walked("/r/big.bin", 101),
        walked("/r/target/out.o", 5),
        walked("/r/edge.txt", 100),
    ];
    let v = scan_workspace(&opts(100, &["target"]), &w).unwrap();
    let rels: Vec<&str> = v.iter().map(|e| e.rel_path.as_str()).collect();
    assert_eq!(rels, vec!["a/b.txt", "a-b.txt", "edge.txt"]);
}

#[test]
fn scan_fails_outside_root() {
    let w = vec![walked("/elsewhere/x.rs", 5)];
    assert_eq!(scan_workspace(&opts(100, &[]), &w).unwrap_err(), ScanError::NotUnderRoot);
}

#[test]
fn single_file_target() {
    assert_eq!(scan_single_file("/r", "/r/a.rs", 10, 100).unwrap().len(), 1);
    assert!(scan_single_file("/r", "/r/a.rs", 0, 100).unwrap().is_empty());
    assert!(scan_single_file("/r", "/r/a.rs", 101, 100).unwrap().is_empty());
}

#[test]
fn token_estimates() {
    assert_eq!(estimate_tokens_from_bytes(20, 4), 5);
    assert_eq!(estimate_tokens_from_bytes(21, 4), 6);
    assert_eq!(estimate_tokens_from_bytes(21, 0), 21);
    assert_eq!(estimate_tokens_from_bytes(0, 4), 0);
}

#[test]
fn budget_boundary_is_inclusive() {
    let entries = vec![entry("a", 20), entry("b", 20), entry("c", 20)];
    let (taken, total) = select_within_budget(&entries, 10, 4);
    assert_eq!(taken, vec![true, true, false]);
    assert_eq!(total, 40);
}

#[test]
fn budget_just_below_boundary_excludes() {
    let entries = vec![entry("a", 20), entry("b", 20), entry("c", 20)];
    let (taken, total) = select_within_budget(&entries, 9, 4);
    assert_eq!(taken, vec![true, false, false]);
    assert_eq!(total, 20);
}

#[test]
fn skipped_files_do_not_stop_later_ones() {
    let entries = vec![entry("a", 5), entry("b", 3)];
    assert_eq!(select_within_budget(&entries, 3, 1).0, vec![false, true]);
    assert_eq!(select_within_budget(&entries, 5, 1).0, vec![true, false]);
}

#[test]
fn larger_budget_keeps_a_leading_run() {
    let entries = vec![entry("a", 4), entry("b", 4), entry("c", 4), entry("d", 40)];
    let small = select_within_budget(&entries, 2, 4).0;
    let large = select_within_budget(&entries, 3, 4).0;
    assert_eq!(small, vec![true, true, false, false]);
    assert_eq!(large, vec![true, true, true, false]);
}

#[test]
fn plan_summarises_the_choice() {
    let cfg = SliceConfig { max_file_bytes: 1000, chars_per_token: 4 };
    let plan = plan_slice("/r", "src", 10, &cfg, vec![entry("a", 20), entry("b", 20), entry("c", 20)]);
    let rels: Vec<&str> = plan.picked.iter().map(|e| e.rel_path.as_str()).collect();
    assert_eq!(rels, vec!["a", "b"]);
    assert_eq!(plan.meta.total_bytes, 40);
    assert_eq!(plan.meta.total_tokens, 10);
    assert_eq!(plan.meta.total_files, 2);
    assert_eq!(plan.meta.budget_tokens, 10);
}

#[test]
fn empty_selection_is_valid() {
    let cfg = SliceConfig { max_file_bytes: 1000, chars_per_token: 4 };
    let plan = plan_slice("/r", "src", 0, &cfg, vec![entry("a", 20)]);
    assert!(plan.picked.is_empty());
    assert_eq!(plan.meta.total_tokens, 0);
}

#[test]
fn document_layout() {
    let files = vec![
        ("src/a&b.rs".to_string(), "fn main() { \"<x>\" }".to_string()),
        ("b.txt".to_string(), String::new()),
    ];
    let doc = build_context_xml(&files).unwrap();
    assert_eq!(
        doc,
        "<?xml version=\"1.0\" encoding=\"utf-8\"?><context_slicer><file path=\"src/a&amp;b.rs\"><![CDATA[fn main() { \"<x>\" }]]></file><file path=\"b.txt\"><![CDATA[]]></file></context_slicer>"
    );
}

#[test]
fn empty_document() {
    assert_eq!(
        build_context_xml(&vec![]).unwrap(),
        "<?xml version=\"1.0\" encoding=\"utf-8\"?><context_slicer></context_slicer>"
    );
}

#[test]
fn character_data_end_marker_is_split() {
    let files = vec![("x".to_string(), "a]]>b".to_string())];
    assert_eq!(
        build_context_xml(&files).unwrap(),
        "<?xml version=\"1.0\" encoding=\"utf-8\"?><context_slicer><file path=\"x\"><![CDATA[a]]]]><![CDATA[>b]]></file></context_slicer>"
    );
}

#[test]
fn repeated_paths_scan_once() {
    let w = vec![walked("/r/a.txt", 5), walked("/r/a.txt", 5)];
    let v = scan_workspace(&opts(100, &[]), &w).unwrap();
    assert_eq!(v.len(), 1);
}
