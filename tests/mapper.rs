use context_slicer::mapper::{
    build_module_graph, build_repo_map, build_repo_map_scoped, est_tokens_from_bytes, find_owner_module,
    import_candidates, resolve_ts_import, size_class_from_bytes, DirEntry, ModuleFile, Probe,
};

fn probe(exists: bool, canonical: &str) -> Probe {
    Probe { exists, canonical: canonical.to_string() }
}

fn file(name: &str, dir: &str, bytes: u64, imports: Vec<Vec<Probe>>) -> DirEntry {
    DirEntry {
        name: name.to_string(),
        path: format!("{dir}/{name}"),
        is_dir: false,
        is_file: true,
        bytes,
        imports,
    }
}

fn dir(name: &str, parent: &str) -> DirEntry {
    DirEntry {
        name: name.to_string(),
        path: format!("{parent}/{name}"),
        is_dir: true,
        is_file: false,
        bytes: 0,
        imports: vec![],
    }
}

#[test]
fn size_classes_at_their_bounds() {
    assert_eq!(size_class_from_bytes(199_999), "small");
    assert_eq!(size_class_from_bytes(200_000), "medium");
    assert_eq!(size_class_from_bytes(1_499_999), "medium");
    assert_eq!(size_class_from_bytes(1_500_000), "large");
}

#[test]
fn tokens_round_up() {
    assert_eq!(est_tokens_from_bytes(0), 0);
    assert_eq!(est_tokens_from_bytes(1), 1);
    assert_eq!(est_tokens_from_bytes(8), 2);
    assert_eq!(est_tokens_from_bytes(9), 3);
    assert_eq!(est_tokens_from_bytes(u64::MAX), u64::MAX / 4 + 1);
}

#[test]
fn candidates_in_order() {
    let c = import_candidates("/r/src", " ./x ", false);
    assert_eq!(c.len(), 11);
    assert_eq!(c[0], "/r/src/./x");
    assert_eq!(c[1], "/r/src/./x.ts");
    assert_eq!(c[6], "/r/src/./x.md");
    assert_eq!(c[7], "/r/src/./x/index.ts");
    assert_eq!(c[10], "/r/src/./x/index.jsx");
    assert_eq!(import_candidates("/r/src", "./x", true).len(), 14);
    assert!(import_candidates("/r/src", "react", true).is_empty());
}

#[test]
fn bare_imports_never_resolve() {
    let probes = vec![probe(true, "/r/node_modules/react/index.js")];
    assert_eq!(resolve_ts_import("/r", "/r/src/a.ts", "react", &probes), None);
}

#[test]
fn first_existing_candidate_under_root_wins() {
    let probes = vec![
        probe(false, "/r/src/x"),
        probe(true, "/elsewhere/x.ts"),
        probe(true, "/r/src/x.tsx"),
        probe(true, "/r/src/x.js"),
    ];
    assert_eq!(resolve_ts_import("/r", "/r/src/a.ts", "./x", &probes), Some("/r/src/x.tsx".to_string()));
}

#[test]
fn nothing_existing_resolves_to_nothing() {
    let probes = vec![probe(false, "/r/src/x"), probe(false, "/r/src/x.ts")];
    assert_eq!(resolve_ts_import("/r", "/r/src/a.ts", "./x", &probes), None);
}

#[test]
fn scoped_map_scenario() {
    let b_import = vec![probe(false, "/r/app/b"), probe(true, "/r/app/b.ts")];
    let entries = vec![
        file("a.ts", "/r/app", 20, vec![b_import]),
        file("b.ts", "/r/app", 400_000, vec![]),
        dir("node_modules", "/r/app"),
    ];
    let map = build_repo_map_scoped("/r", "app", "/r/app", &entries);
    let ids: Vec<&str> = map.nodes.iter().map(|n| n.id.as_str()).collect();
    assert_eq!(ids, vec!["app", "app/a.ts", "app/b.ts"]);
    let edges: Vec<&str> = map.edges.iter().map(|e| e.id.as_str()).collect();
    assert_eq!(edges, vec!["app->app/a.ts", "app->app/b.ts", "app/a.ts->app/b.ts"]);
    assert_eq!(map.nodes[0].label, "app");
    assert_eq!(map.nodes[0].kind, "directory");
    assert_eq!(map.nodes[1].est_tokens, 5);
    assert_eq!(map.nodes[2].size_class, "medium");
}

#[test]
fn scoped_map_hides_denied_paths_and_other_kinds() {
    let entries = vec![
        file("x.ts", "/r/node_modules/pkg", 5, vec![]),
        file("y.py", "/r", 5, vec![]),
        dir("src", "/r"),
        dir(".git", "/r"),
    ];
    let map = build_repo_map("/r", &entries);
    let ids: Vec<&str> = map.nodes.iter().map(|n| n.id.as_str()).collect();
    assert_eq!(ids, vec![".", "src"]);
    assert_eq!(map.nodes[0].label, "r");
    assert_eq!(map.edges.len(), 1);
    assert_eq!(map.edges[0].id, ".->src");
}

#[test]
fn self_imports_and_repeats_make_no_extra_edges() {
    let own = vec![probe(true, "/r/a.ts")];
    let other = vec![probe(true, "/r/b.ts")];
    let entries = vec![file("a.ts", "/r", 4, vec![own, other.clone(), other]), file("b.ts", "/r", 4, vec![])];
    let map = build_repo_map("/r", &entries);
    let edges: Vec<&str> = map.edges.iter().map(|e| e.id.as_str()).collect();
    assert_eq!(edges, vec![".->a.ts", ".->b.ts", "a.ts->b.ts"]);
}

#[test]
fn owner_is_nearest_root() {
    let roots = vec!["/r".to_string(), "/r/pkg".to_string()];
    assert_eq!(find_owner_module("/r/pkg/src/deep", "/r", &roots), Some(1));
    assert_eq!(find_owner_module("/r/other", "/r", &roots), Some(0));
    assert_eq!(find_owner_module("/elsewhere/x", "/r", &vec!["/r/pkg".to_string()]), None);
}

#[test]
fn module_graph_groups_and_weighs() {
    let f = |path: &str, bytes: u64, imports: Vec<&str>| ModuleFile {
        path: path.to_string(),
        bytes,
        imports: imports.into_iter().map(|s| s.to_string()).collect(),
    };
    let files = vec![
        f("/r/web/package.json", 10, vec![]),
        f("/r/web/src/app.ts", 100, vec!["/r/lib/util.ts", "/r/lib/more.ts", "/r/web/src/own.ts"]),
        f("/r/lib/index.ts", 40, vec![]),
        f("/r/lib/util.ts", 60, vec![]),
        f("/r/tool.py", 7, vec![]),
        f("/r/node_modules/x/index.ts", 1000, vec!["/r/lib/util.ts"]),
        f("/r/notes.md", 3, vec![]),
    ];
    let g = build_module_graph("/r", "/r", &files);
    let nodes: Vec<(&str, &str, u64, u64, u64)> = g
        .nodes
        .iter()
        .map(|n| (n.id.as_str(), n.label.as_str(), n.file_count, n.bytes, n.est_tokens))
        .collect();
    assert_eq!(nodes, vec![(".", "r", 1, 3, 1), ("lib", "lib", 2, 100, 25), ("web", "web", 2, 110, 28)]);
    assert!(g.nodes.iter().all(|n| n.size_class == "small"));
    let edges: Vec<(&str, u64)> = g.edges.iter().map(|e| (e.id.as_str(), e.weight)).collect();
    assert_eq!(edges, vec![("web->lib", 2)]);
}

#[test]
fn imports_into_denied_directories_add_no_weight() {
    let f = |path: &str, imports: Vec<&str>| ModuleFile {
        path: path.to_string(),
        bytes: 1,
        imports: imports.into_iter().map(|s| s.to_string()).collect(),
    };
    let files = vec![
        f("/r/web/package.json", vec![]),
        f("/r/web/a.ts", vec!["/r/lib/node_modules/x/index.js", "/r/lib/ok.ts"]),
        f("/r/lib/index.ts", vec![]),
    ];
    let g = build_module_graph("/r", "/r", &files);
    let edges: Vec<(&str, u64)> = g.edges.iter().map(|e| (e.id.as_str(), e.weight)).collect();
    assert_eq!(edges, vec![("web->lib", 1)]);
}

#[test]
fn repeated_entries_make_one_node() {
    let entries = vec![file("a.ts", "/r", 4, vec![]), file("a.ts", "/r", 9, vec![])];
    let map = build_repo_map("/r", &entries);
    let ids: Vec<&str> = map.nodes.iter().map(|n| n.id.as_str()).collect();
    assert_eq!(ids, vec![".", "a.ts"]);
    assert_eq!(map.nodes[1].bytes, 4);
    assert_eq!(map.edges.len(), 1);
}

#[test]
fn scope_label_for_unnamed_scope() {
    let map = build_repo_map_scoped("/r", "sub", "/elsewhere/sub", &vec![]);
    assert_eq!(map.nodes.len(), 1);
    assert_eq!(map.nodes[0].id, "sub");
    assert_eq!(map.nodes[0].label, "sub");
}
