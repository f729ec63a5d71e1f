//! Repository maps and module graphs, built from what a walk of the tree
//! found.
use vstd::prelude::*;
use vstd::string::StringExecFns;
use crate::order::{Keyed, dedup_by_key, lemma_same_members, key_present, keys_strictly_sorted, sort_by_key};
use crate::paths::{
    deny_listed, has_allowed_extension, has_denied_component, is_allowed_ext, joined, join_path,
    label_of, module_id, normalize_module_id, path_has_forbidden_component, relative_text, rel_str,
    should_skip_dir_name, strip_base, strip_base_chars, clamp_label, file_name, file_name_chars,
    name_or, parent_of, parent_path, lemma_parent_shorter, module_marker, is_module_marker_file,
    module_label, module_label_of,
};
use crate::text::{chars_of, same_text, string_of, trim, trim_str};

verus! {

/// One node of a repository map: a file or a directory.
#[derive(Debug, Clone)]
pub struct MapNode {
    pub id: String,
    pub label: String,
    pub path: String,
    pub kind: String,
    pub size_class: String,
    pub bytes: u64,
    pub est_tokens: u64,
}

/// One edge of a repository map.
#[derive(Debug, Clone)]
pub struct MapEdge {
    pub id: String,
    pub source: String,
    pub target: String,
}

/// Nodes and edges of a repository map, each sorted by id.
#[derive(Debug, Clone)]
pub struct RepoMap {
    pub nodes: Vec<MapNode>,
    pub edges: Vec<MapEdge>,
}

/// One module of a module graph.
#[derive(Debug, Clone)]
pub struct ModuleNode {
    pub id: String,
    pub label: String,
    pub path: String,
    pub file_count: u64,
    pub bytes: u64,
    pub size_class: String,
    pub est_tokens: u64,
}

/// Imports from one module into another, counted.
#[derive(Debug, Clone)]
pub struct ModuleEdge {
    pub id: String,
    pub source: String,
    pub target: String,
    pub weight: u64,
}

/// Modules and the weighted imports between them, each sorted by id.
#[derive(Debug, Clone)]
pub struct ModuleGraph {
    pub nodes: Vec<ModuleNode>,
    pub edges: Vec<ModuleEdge>,
}

impl Keyed for MapNode {
    open spec fn key(&self) -> Seq<char> {
        self.id@
    }

    fn key_text(&self) -> (r: &str) {
        self.id.as_str()
    }
}

impl Keyed for MapEdge {
    open spec fn key(&self) -> Seq<char> {
        self.id@
    }

    fn key_text(&self) -> (r: &str) {
        self.id.as_str()
    }
}

impl Keyed for ModuleNode {
    open spec fn key(&self) -> Seq<char> {
        self.id@
    }

    fn key_text(&self) -> (r: &str) {
        self.id.as_str()
    }
}

impl Keyed for ModuleEdge {
    open spec fn key(&self) -> Seq<char> {
        self.id@
    }

    fn key_text(&self) -> (r: &str) {
        self.id.as_str()
    }
}

/// Files below this many bytes are small.
pub const SMALL_BYTES: u64 = 200_000;

/// Files below this many bytes, and not small, are medium.
pub const MEDIUM_BYTES: u64 = 1_500_000;

/// The size class of a file or module of `bytes` bytes.
pub open spec fn size_class_of(bytes: u64) -> Seq<char> {
    if bytes < SMALL_BYTES {
        "small"@
    } else if bytes < MEDIUM_BYTES {
        "medium"@
    } else {
        "large"@
    }
}

/// Size class of `bytes` bytes.
pub fn size_class_from_bytes(bytes: u64) -> (r: String)
    ensures
        r@ == size_class_of(bytes),
{
    if bytes < SMALL_BYTES {
        String::from_str("small")
    } else if bytes < MEDIUM_BYTES {
        String::from_str("medium")
    } else {
        String::from_str("large")
    }
}

/// `n / d`, rounded up.
pub open spec fn ceil_div(n: int, d: int) -> int {
    (n + d - 1) / d
}

/// Estimated tokens of `bytes` bytes, at four bytes a token.
pub fn est_tokens_from_bytes(bytes: u64) -> (r: u64)
    ensures
        r == ceil_div(bytes as int, 4),
{
    let q = bytes / 4;
    let r = if bytes % 4 == 0 { q } else { q + 1 };
    proof {
        assert(r == ceil_div(bytes as int, 4)) by (nonlinear_arith)
            requires
                q == bytes as int / 4,
                r == (if bytes as int % 4 == 0 { q as int } else { q + 1 }),
                bytes >= 0,
        ;
    }
    r
}


/// What the file system says about one candidate path: whether it exists,
/// and its canonical form (the candidate itself where it has none).
#[derive(Debug, Clone)]
pub struct Probe {
    pub exists: bool,
    pub canonical: String,
}

/// Extensions tried after an import path: the longer list for module
/// graphs, the shorter one for map edges.
pub open spec fn file_exts(wide: bool) -> Seq<Seq<char>> {
    if wide {
        seq!["ts"@, "tsx"@, "js"@, "jsx"@, "json"@, "md"@, "toml"@, "css"@, "html"@]
    } else {
        seq!["ts"@, "tsx"@, "js"@, "jsx"@, "json"@, "md"@]
    }
}

/// Extensions of the index files tried inside an imported directory.
pub open spec fn index_exts() -> Seq<Seq<char>> {
    seq!["ts"@, "tsx"@, "js"@, "jsx"@]
}

/// An import that starts with `.`: the only kind ever resolved.
pub open spec fn relative_ref(imp: Seq<char>) -> bool {
    trim(imp).len() > 0 && trim(imp)[0] == '.'
}

/// The paths tried, in order, for an import from a file in `base`: the path
/// itself, the path with each extension, the index file of each extension
/// inside it. None for an import that is not relative.
pub open spec fn candidate_paths(base: Seq<char>, imp: Seq<char>, wide: bool) -> Seq<Seq<char>> {
    let t = trim(imp);
    if !relative_ref(imp) {
        Seq::empty()
    } else {
        seq![joined(base, t)] + file_exts(wide).map_values(|e: Seq<char>| joined(base, t + "."@ + e))
            + index_exts().map_values(|e: Seq<char>| joined(joined(base, t), "index."@ + e))
    }
}

fn ext_list(wide: bool) -> (r: Vec<&'static str>)
    ensures
        r@.map_values(|e: &str| e@) == file_exts(wide),
{
    let v = if wide {
        vec!["ts", "tsx", "js", "jsx", "json", "md", "toml", "css", "html"]
    } else {
        vec!["ts", "tsx", "js", "jsx", "json", "md"]
    };
    proof {
        assert(v@.map_values(|e: &str| e@) =~= file_exts(wide));
    }
    v
}

fn index_list() -> (r: Vec<&'static str>)
    ensures
        r@.map_values(|e: &str| e@) == index_exts(),
{
    let v = vec!["ts", "tsx", "js", "jsx"];
    proof {
        assert(v@.map_values(|e: &str| e@) =~= index_exts());
    }
    v
}

/// The text views of a sequence of strings.
pub open spec fn texts(s: Seq<String>) -> Seq<Seq<char>> {
    s.map_values(|x: String| x@)
}

/// The paths to try, in order, for import `imp` of a file in `base_dir`.
pub fn import_candidates(base_dir: &str, imp: &str, wide: bool) -> (r: Vec<String>)
    ensures
        texts(r@) == candidate_paths(base_dir@, imp@, wide),
{
    let t = trim_str(imp);
    let tc = chars_of(t.as_str());
    let mut out: Vec<String> = Vec::new();
    if tc.len() == 0 || tc[0] != '.' {
        proof {
            assert(texts(out@) =~= Seq::<Seq<char>>::empty());
        }
        return out;
    }
    out.push(join_path(base_dir, t.as_str()));
    let exts = ext_list(wide);
    let ghost head = seq![joined(base_dir@, t@)];
    let ghost fe = file_exts(wide).map_values(|e: Seq<char>| joined(base_dir@, t@ + "."@ + e));
    let mut i: usize = 0;
    proof {
        assert(texts(out@) =~= head + fe.subrange(0, 0));
    }
    while i < exts.len()
        invariant
            i <= exts@.len(),
            exts@.map_values(|e: &str| e@) == file_exts(wide),
            fe == file_exts(wide).map_values(|e: Seq<char>| joined(base_dir@, t@ + "."@ + e)),
            texts(out@) == head + fe.subrange(0, i as int),
        decreases exts@.len() - i,
    {
        let mut name = t.clone();
        name.append(".");
        name.append(exts[i]);
        let c = join_path(base_dir, name.as_str());
        let ghost before = out@;
        out.push(c);
        proof {
            assert(file_exts(wide)[i as int] == exts@[i as int]@);
            assert(texts(out@) =~= texts(before).push(c@));
            assert(fe.subrange(0, i + 1) =~= fe.subrange(0, i as int).push(fe[i as int]));
        }
        i += 1;
    }
    let dir = join_path(base_dir, t.as_str());
    let idx = index_list();
    let ghost mid = head + fe;
    let ghost ie = index_exts().map_values(|e: Seq<char>| joined(joined(base_dir@, t@), "index."@ + e));
    let mut k: usize = 0;
    proof {
        assert(fe.subrange(0, fe.len() as int) =~= fe);
        assert(texts(out@) =~= mid + ie.subrange(0, 0));
    }
    while k < idx.len()
        invariant
            k <= idx@.len(),
            idx@.map_values(|e: &str| e@) == index_exts(),
            dir@ == joined(base_dir@, t@),
            ie == index_exts().map_values(|e: Seq<char>| joined(joined(base_dir@, t@), "index."@ + e)),
            texts(out@) == mid + ie.subrange(0, k as int),
        decreases idx@.len() - k,
    {
        let mut name = String::from_str("index.");
        name.append(idx[k]);
        let c = join_path(dir.as_str(), name.as_str());
        let ghost before = out@;
        out.push(c);
        proof {
            assert(index_exts()[k as int] == idx@[k as int]@);
            assert(texts(out@) =~= texts(before).push(c@));
            assert(ie.subrange(0, k + 1) =~= ie.subrange(0, k as int).push(ie[k as int]));
        }
        k += 1;
    }
    proof {
        assert(ie.subrange(0, ie.len() as int) =~= ie);
    }
    out
}

/// A probe that counts: the path exists and lies under the repository root.
pub open spec fn accepted(repo_root: Seq<char>, p: Probe) -> bool {
    p.exists && strip_base(p.canonical@, repo_root) is Some
}

/// The canonical path of the first accepted probe among the first `limit`.
pub fn first_accepted(repo_root: &str, probes: &[Probe], limit: usize) -> (r: Option<String>)
    ensures
        r matches Some(c) ==> exists|i: int|
            0 <= i < probes@.len() && i < limit && accepted(repo_root@, #[trigger] probes@[i])
                && c@ == probes@[i].canonical@ && forall|k: int|
                0 <= k < i ==> !accepted(repo_root@, #[trigger] probes@[k]),
        r is None ==> forall|i: int|
            0 <= i < probes@.len() && i < limit ==> !accepted(repo_root@, #[trigger] probes@[i]),
{
    let root = chars_of(repo_root);
    let mut i: usize = 0;
    while i < probes.len() && i < limit
        invariant
            i <= probes@.len(),
            root@ == repo_root@,
            forall|k: int| 0 <= k < i ==> !accepted(repo_root@, #[trigger] probes@[k]),
        decreases probes@.len() - i,
    {
        let p = &probes[i];
        if p.exists {
            let c = chars_of(p.canonical.as_str());
            if strip_base_chars(c.as_slice(), root.as_slice()).is_some() {
                return Some(p.canonical.clone());
            }
        }
        i += 1;
    }
    None
}

/// Resolves import `imp` of the file `from_file_abs`: the canonical path of
/// the first candidate (see `import_candidates`, longer extension list)
/// that exists under the repository root. `probes` holds what the file
/// system said of each candidate, in candidate order; missing probes count
/// as absent paths. Imports that do not start with `.` never resolve.
pub fn resolve_ts_import(repo_root: &str, from_file_abs: &str, imp: &str, probes: &[Probe]) -> (r:
    Option<String>)
    ensures
        !relative_ref(imp@) ==> r is None,
        crate::paths::parent_of(from_file_abs@) is None ==> r is None,
        r matches Some(c) ==> ({
            let n = candidate_paths(crate::paths::parent_of(from_file_abs@)->0, imp@, true).len();
            exists|i: int|
                0 <= i < probes@.len() && i < n && accepted(repo_root@, #[trigger] probes@[i])
                    && c@ == probes@[i].canonical@ && forall|k: int|
                    0 <= k < i ==> !accepted(repo_root@, #[trigger] probes@[k])
        }),
        relative_ref(imp@) && crate::paths::parent_of(from_file_abs@) is Some && (exists|i: int|
            0 <= i < probes@.len() && i < candidate_paths(
                crate::paths::parent_of(from_file_abs@)->0,
                imp@,
                true,
            ).len() && accepted(repo_root@, #[trigger] probes@[i])) ==> r is Some,
{
    let base = match crate::paths::parent_path(from_file_abs) {
        None => {
            return None;
        },
        Some(b) => b,
    };
    let cands = import_candidates(base.as_str(), imp, true);
    proof {
        assert(texts(cands@).len() == cands@.len());
    }
    first_accepted(repo_root, probes, cands.len())
}


/// One entry of a directory, as a walk saw it. For a file, `imports` holds,
/// for each of its imports in order, the probes of that import's candidate
/// paths (see `import_candidates`, shorter extension list).
#[derive(Debug, Clone)]
pub struct DirEntry {
    pub name: String,
    pub path: String,
    pub is_dir: bool,
    pub is_file: bool,
    pub bytes: u64,
    pub imports: Vec<Vec<Probe>>,
}

/// An entry that a scoped map shows: not on the deny-list, by name or by
/// any piece of its path, and a directory or a file of an allowed kind.
pub open spec fn entry_shown(e: DirEntry) -> bool {
    &&& !deny_listed(e.name@)
    &&& !has_denied_component(e.path@)
    &&& (e.is_dir || (e.is_file && has_allowed_extension(e.path@)))
}

/// The node id of an entry: its path relative to the repository root, or
/// its name where it does not lie under the root.
pub open spec fn entry_id(repo_root: Seq<char>, e: DirEntry) -> Seq<char> {
    module_id(
        match relative_text(repo_root, e.path@) {
            Some(r) => r,
            None => e.name@,
        },
    )
}

/// The node id of the scope directory.
pub open spec fn scope_id(repo_root: Seq<char>, scope: Seq<char>, scope_abs: Seq<char>) -> Seq<char> {
    module_id(
        match relative_text(repo_root, scope_abs) {
            Some(r) => r,
            None => scope,
        },
    )
}

/// The id of an edge.
pub open spec fn edge_id(source: Seq<char>, target: Seq<char>) -> Seq<char> {
    source + "->"@ + target
}

/// `n` is the node a scoped map shows for entry `e`.
pub open spec fn entry_node(repo_root: Seq<char>, e: DirEntry, n: MapNode) -> bool {
    &&& n.id@ == entry_id(repo_root, e)
    &&& n.path@ == entry_id(repo_root, e)
    &&& n.label@ == label_of(e.name@)
    &&& if e.is_dir {
        &&& n.kind@ == "directory"@
        &&& n.size_class@ == "small"@
        &&& n.bytes == 0
        &&& n.est_tokens == 0
    } else {
        &&& n.kind@ == "file"@
        &&& n.size_class@ == size_class_of(e.bytes)
        &&& n.bytes == e.bytes
        &&& n.est_tokens == ceil_div(e.bytes as int, 4)
    }
}

/// The label of the scope's own node: the repository's directory name for
/// the root (or `root`), else the scope directory's name (or its id).
pub open spec fn scope_label(repo_root: Seq<char>, scope: Seq<char>, scope_abs: Seq<char>) -> Seq<char> {
    let sid = scope_id(repo_root, scope, scope_abs);
    if sid == "."@ {
        name_or(file_name(repo_root), "root"@)
    } else {
        name_or(file_name(scope_abs), sid)
    }
}

/// The ids of a sequence of nodes.
pub open spec fn node_ids(nodes: Seq<MapNode>) -> Seq<Seq<char>> {
    nodes.map_values(|n: MapNode| n.id@)
}

/// An edge from the scope to a shown entry.
pub open spec fn parent_edge(repo_root: Seq<char>, sid: Seq<char>, entries: Seq<DirEntry>, edge: MapEdge) -> bool {
    edge.source@ == sid && exists|k: int|
        0 <= k < entries.len() && entry_shown(#[trigger] entries[k]) && edge.target@ == entry_id(repo_root, entries[k])
}

/// An edge from a shown file to the node that one of its imports resolves
/// to, other than itself.
pub open spec fn import_edge_of(repo_root: Seq<char>, entries: Seq<DirEntry>, ids: Seq<Seq<char>>, edge: MapEdge) -> bool {
    exists|k: int, m: int|
        0 <= k < entries.len() && entry_shown(entries[k]) && !entries[k].is_dir && 0 <= m
            < entries[k].imports@.len() && edge.source@ == entry_id(repo_root, entries[k]) && edge.source@
            != edge.target@ && resolved_node(repo_root, #[trigger] entries[k].imports@[m]@, ids) == Some(
            edge.target@,
        )
}

/// `n` is the node of the scope directory itself.
pub open spec fn scope_node(id: Seq<char>, label: Seq<char>, n: MapNode) -> bool {
    &&& n.id@ == id
    &&& n.label@ == label
    &&& n.path@ == id
    &&& n.kind@ == "directory"@
    &&& n.size_class@ == "small"@
    &&& n.bytes == 0
    &&& n.est_tokens == 0
}

/// `n` is the node of one of the first `k` entries that are shown.
pub open spec fn from_entry(repo_root: Seq<char>, entries: Seq<DirEntry>, k: int, n: MapNode) -> bool {
    exists|e: int| 0 <= e < k && entry_shown(#[trigger] entries[e]) && entry_node(repo_root, entries[e], n)
}

/// Some node of `nodes` has id `id`.
pub open spec fn has_node(nodes: Seq<MapNode>, id: Seq<char>) -> bool {
    exists|i: int| 0 <= i < nodes.len() && #[trigger] nodes[i].id@ == id
}

/// A probe that resolves to a node: it exists and lies under the root at a
/// path that is the id of one of `ids`.
pub open spec fn node_probe(repo_root: Seq<char>, p: Probe, ids: Seq<Seq<char>>) -> bool {
    p.exists && match relative_text(repo_root, p.canonical@) {
        Some(r) => ids.contains(module_id(r)),
        None => false,
    }
}

/// The node id of the first probe that resolves to a node.
pub open spec fn resolved_node(repo_root: Seq<char>, probes: Seq<Probe>, ids: Seq<Seq<char>>) -> Option<
    Seq<char>,
>
    decreases probes.len(),
{
    if probes.len() == 0 {
        None
    } else if node_probe(repo_root, probes[0], ids) {
        Some(module_id(relative_text(repo_root, probes[0].canonical@)->0))
    } else {
        resolved_node(repo_root, probes.drop_first(), ids)
    }
}

proof fn lemma_resolved_same_ids(
    repo_root: Seq<char>,
    probes: Seq<Probe>,
    ids1: Seq<Seq<char>>,
    ids2: Seq<Seq<char>>,
)
    requires
        forall|x: Seq<char>| ids1.contains(x) <==> ids2.contains(x),
    ensures
        resolved_node(repo_root, probes, ids1) == resolved_node(repo_root, probes, ids2),
    decreases probes.len(),
{
    if probes.len() > 0 {
        lemma_resolved_same_ids(repo_root, probes.drop_first(), ids1, ids2);
    }
}

/// The node id of the first probe that resolves to a node.
pub fn resolve_among_nodes(repo_root: &str, probes: &Vec<Probe>, ids: &Vec<String>) -> (r: Option<String>)
    ensures
        match r {
            Some(d) => resolved_node(repo_root@, probes@, texts(ids@)) == Some(d@) && texts(ids@).contains(d@),
            None => resolved_node(repo_root@, probes@, texts(ids@)) is None,
        },
{
    let mut i: usize = 0;
    proof {
        assert(probes@.subrange(0, probes@.len() as int) =~= probes@);
        assert(probes@.subrange(0, probes@.len() as int) == probes@.subrange(0int, probes@.len() as int));
    }
    while i < probes.len()
        invariant
            i <= probes@.len(),
            resolved_node(repo_root@, probes@, texts(ids@)) == resolved_node(
                repo_root@,
                probes@.subrange(i as int, probes@.len() as int),
                texts(ids@),
            ),
        decreases probes@.len() - i,
    {
        let p = &probes[i];
        let ghost rest = probes@.subrange(i as int, probes@.len() as int);
        proof {
            assert(rest[0] == probes@[i as int]);
            assert(rest.drop_first() =~= probes@.subrange(i + 1, probes@.len() as int));
        }
        if p.exists {
            if let Some(rel) = rel_str(repo_root, p.canonical.as_str()) {
                let id = normalize_module_id(rel.as_str());
                if contains_text(ids, id.as_str()) {
                    return Some(id);
                }
            }
        }
        i += 1;
    }
    None
}

/// Each of the first `upto` imports of entry `e` that resolves to a node
/// other than the entry's own has its edge in `edges`.
pub open spec fn imports_linked(
    repo_root: Seq<char>,
    e: DirEntry,
    upto: int,
    ids: Seq<Seq<char>>,
    edges: Seq<MapEdge>,
) -> bool {
    forall|m: int|
        0 <= m < upto ==> (resolved_node(repo_root, #[trigger] e.imports@[m]@, ids) matches Some(d) ==> (d
            != entry_id(repo_root, e) ==> key_present(edges, edge_id(entry_id(repo_root, e), d))))
}

proof fn lemma_linked_carry(
    repo_root: Seq<char>,
    e: DirEntry,
    upto: int,
    ids1: Seq<Seq<char>>,
    ids2: Seq<Seq<char>>,
    edges1: Seq<MapEdge>,
    edges2: Seq<MapEdge>,
)
    requires
        imports_linked(repo_root, e, upto, ids1, edges1),
        forall|x: Seq<char>| ids1.contains(x) <==> ids2.contains(x),
        forall|x: Seq<char>| key_present(edges1, x) ==> key_present(edges2, x),
    ensures
        imports_linked(repo_root, e, upto, ids2, edges2),
{
    assert forall|m: int| 0 <= m < upto implies (resolved_node(repo_root, #[trigger] e.imports@[m]@, ids2) matches Some(d) ==> (d
        != entry_id(repo_root, e) ==> key_present(edges2, edge_id(entry_id(repo_root, e), d)))) by {
        lemma_resolved_same_ids(repo_root, e.imports@[m]@, ids1, ids2);
        if let Some(d) = resolved_node(repo_root, e.imports@[m]@, ids1) {
            if d != entry_id(repo_root, e) {
                assert(key_present(edges1, edge_id(entry_id(repo_root, e), d)));
            }
        }
    }
}

/// Whether `t` is one of `v`.
pub fn contains_text(v: &Vec<String>, t: &str) -> (r: bool)
    ensures
        r == texts(v@).contains(t@),
{
    let mut i: usize = 0;
    while i < v.len()
        invariant
            i <= v@.len(),
            forall|k: int| 0 <= k < i ==> v@[k]@ != t@,
        decreases v@.len() - i,
    {
        if same_text(v[i].as_str(), t) {
            proof {
                assert(texts(v@)[i as int] == t@);
            }
            return true;
        }
        i += 1;
    }
    proof {
        if texts(v@).contains(t@) {
            let k = choose|k: int| 0 <= k < texts(v@).len() && texts(v@)[k] == t@;
            assert(v@[k]@ == t@);
        }
    }
    false
}

/// The edge `source -> target`.
fn make_edge(source: &String, target: &String) -> (r: MapEdge)
    ensures
        r.id@ == edge_id(source@, target@),
        r.source@ == source@,
        r.target@ == target@,
{
    let mut id = source.clone();
    id.append("->");
    id.append(target.as_str());
    MapEdge { id, source: source.clone(), target: target.clone() }
}

/// Every edge joins two nodes and carries its id.
pub open spec fn edges_join_nodes(nodes: Seq<MapNode>, edges: Seq<MapEdge>) -> bool {
    forall|j: int|
        0 <= j < edges.len() ==> {
            &&& (#[trigger] edges[j]).id@ == edge_id(edges[j].source@, edges[j].target@)
            &&& has_node(nodes, edges[j].source@)
            &&& has_node(nodes, edges[j].target@)
        }
}

/// What a scoped map holds: nodes and edges each strictly sorted by id;
/// the scope's own node; otherwise only nodes of shown entries, and a node
/// for every shown entry; an edge from the scope to each shown entry; for
/// each shown file, an edge to every node that one of its imports resolves
/// to; and no edge but these.
pub open spec fn scoped_map_ok(
    repo_root: Seq<char>,
    scope: Seq<char>,
    scope_abs: Seq<char>,
    entries: Seq<DirEntry>,
    r: RepoMap,
) -> bool {
    let sid = scope_id(repo_root, scope, scope_abs);
    let label = scope_label(repo_root, scope, scope_abs);
    &&& keys_strictly_sorted(r.nodes@, false)
    &&& keys_strictly_sorted(r.edges@, false)
    &&& exists|i: int| 0 <= i < r.nodes@.len() && scope_node(sid, label, #[trigger] r.nodes@[i])
    &&& forall|i: int|
        0 <= i < r.nodes@.len() ==> scope_node(sid, label, #[trigger] r.nodes@[i]) || from_entry(
            repo_root,
            entries,
            entries.len() as int,
            r.nodes@[i],
        )
    &&& forall|k: int|
        0 <= k < entries.len() && entry_shown(#[trigger] entries[k]) ==> has_node(r.nodes@, entry_id(repo_root, entries[k]))
    &&& forall|k: int|
        0 <= k < entries.len() && entry_shown(#[trigger] entries[k]) ==> key_present(
            r.edges@,
            edge_id(sid, entry_id(repo_root, entries[k])),
        )
    &&& edges_join_nodes(r.nodes@, r.edges@)
    &&& forall|k: int|
        0 <= k < entries.len() && entry_shown(entries[k]) && !entries[k].is_dir ==> imports_linked(
            repo_root,
            #[trigger] entries[k],
            entries[k].imports@.len() as int,
            node_ids(r.nodes@),
            r.edges@,
        )
    &&& forall|j: int|
        0 <= j < r.edges@.len() ==> parent_edge(repo_root, sid, entries, #[trigger] r.edges@[j]) || import_edge_of(
            repo_root,
            entries,
            node_ids(r.nodes@),
            r.edges@[j],
        )
}

proof fn lemma_import_edge_carry(
    repo_root: Seq<char>,
    entries: Seq<DirEntry>,
    ids1: Seq<Seq<char>>,
    ids2: Seq<Seq<char>>,
    edge: MapEdge,
)
    requires
        import_edge_of(repo_root, entries, ids1, edge),
        forall|x: Seq<char>| ids1.contains(x) <==> ids2.contains(x),
    ensures
        import_edge_of(repo_root, entries, ids2, edge),
{
    let (k, m) = choose|k: int, m: int|
        0 <= k < entries.len() && entry_shown(entries[k]) && !entries[k].is_dir && 0 <= m
            < entries[k].imports@.len() && edge.source@ == entry_id(repo_root, entries[k]) && edge.source@
            != edge.target@ && resolved_node(repo_root, #[trigger] entries[k].imports@[m]@, ids1) == Some(
            edge.target@,
        );
    lemma_resolved_same_ids(repo_root, entries[k].imports@[m]@, ids1, ids2);
}

/// The one-level map of a directory: the directory itself, the entries
/// that `entry_shown` admits (the first of any that share an id), an edge
/// from the directory to each of them, and an edge between two shown
/// entries where an import of the first, a file, resolves to the second.
/// `scope` is the directory as given, `scope_abs` its absolute path,
/// `entries` what it holds.
pub fn build_repo_map_scoped(repo_root: &str, scope: &str, scope_abs: &str, entries: &Vec<DirEntry>) -> (r:
    RepoMap)
    ensures
        scoped_map_ok(repo_root@, scope@, scope_abs@, entries@, r),
{
    let parent_rel = match rel_str(repo_root, scope_abs) {
        Some(r) => r,
        None => String::from_str(scope),
    };
    let parent_id = normalize_module_id(parent_rel.as_str());
    let ghost sid = scope_id(repo_root@, scope@, scope_abs@);
    let ghost slabel = scope_label(repo_root@, scope@, scope_abs@);
    let parent_label = if same_text(parent_id.as_str(), ".") {
        let rc = chars_of(repo_root);
        let n = file_name_chars(rc.as_slice());
        if n.len() == 0 { String::from_str("root") } else { string_of(n.as_slice()) }
    } else {
        let sc = chars_of(scope_abs);
        let n = file_name_chars(sc.as_slice());
        if n.len() == 0 { parent_id.clone() } else { string_of(n.as_slice()) }
    };
    let mut nodes: Vec<MapNode> = Vec::new();
    let mut edges: Vec<MapEdge> = Vec::new();
    let mut ids: Vec<String> = Vec::new();
    nodes.push(
        MapNode {
            id: parent_id.clone(),
            label: parent_label,
            path: parent_id.clone(),
            kind: String::from_str("directory"),
            size_class: String::from_str("small"),
            bytes: 0,
            est_tokens: 0,
        },
    );
    ids.push(parent_id.clone());
    proof {
        assert(texts(ids@) =~= node_ids(nodes@));
    }
    let mut k: usize = 0;
    while k < entries.len()
        invariant
            k <= entries@.len(),
            parent_id@ == sid,
            nodes@.len() >= 1,
            scope_node(sid, slabel, nodes@[0]),
            texts(ids@) == node_ids(nodes@),
            forall|a: int, b: int| 0 <= a < b < nodes@.len() ==> (#[trigger] nodes@[a]).id@ != (#[trigger] nodes@[b]).id@,
            forall|i: int| 1 <= i < nodes@.len() ==> from_entry(repo_root@, entries@, k as int, #[trigger] nodes@[i]),
            forall|e: int|
                0 <= e < k && entry_shown(#[trigger] entries@[e]) ==> has_node(nodes@, entry_id(repo_root@, entries@[e])),
            forall|e: int|
                0 <= e < k && entry_shown(#[trigger] entries@[e]) ==> key_present(
                    edges@,
                    edge_id(sid, entry_id(repo_root@, entries@[e])),
                ),
            edges_join_nodes(nodes@, edges@),
            forall|j: int| 0 <= j < edges@.len() ==> parent_edge(repo_root@, sid, entries@, #[trigger] edges@[j]),
        decreases entries@.len() - k,
    {
        let e = &entries[k];
        let ghost before_nodes = nodes@;
        let ghost before_edges = edges@;
        let shown_name = !should_skip_dir_name(e.name.as_str()) && !path_has_forbidden_component(e.path.as_str());
        if shown_name && (e.is_dir || (e.is_file && is_allowed_ext(e.path.as_str()))) {
            let rel = match rel_str(repo_root, e.path.as_str()) {
                Some(r) => r,
                None => e.name.clone(),
            };
            let id = normalize_module_id(rel.as_str());
            proof {
                assert(entry_shown(entries@[k as int]));
                assert(id@ == entry_id(repo_root@, entries@[k as int]));
            }
            if !contains_text(&ids, id.as_str()) {
                let node = if e.is_dir {
                    MapNode {
                        id: id.clone(),
                        label: clamp_label(e.name.as_str()),
                        path: id.clone(),
                        kind: String::from_str("directory"),
                        size_class: String::from_str("small"),
                        bytes: 0,
                        est_tokens: 0,
                    }
                } else {
                    MapNode {
                        id: id.clone(),
                        label: clamp_label(e.name.as_str()),
                        path: id.clone(),
                        kind: String::from_str("file"),
                        size_class: size_class_from_bytes(e.bytes),
                        bytes: e.bytes,
                        est_tokens: est_tokens_from_bytes(e.bytes),
                    }
                };
                let ghost old_ids = ids@;
                let ghost nid = node.id@;
                nodes.push(node);
                ids.push(id.clone());
                proof {
                    assert(texts(ids@) =~= texts(old_ids).push(nid));
                    assert(node_ids(nodes@) =~= node_ids(before_nodes).push(nid));
                    assert(entry_node(repo_root@, entries@[k as int], nodes@[nodes@.len() - 1]));
                    assert(forall|i: int| 0 <= i < before_nodes.len() ==> nodes@[i] == before_nodes[i]);
                    assert forall|a: int, b: int| 0 <= a < b < nodes@.len() implies (#[trigger] nodes@[a]).id@ != (#[trigger] nodes@[b]).id@ by {
                        if b == nodes@.len() - 1 {
                            assert(texts(old_ids)[a] == before_nodes[a].id@);
                        }
                    }
                    assert forall|i: int| 1 <= i < nodes@.len() implies from_entry(repo_root@, entries@, k + 1, #[trigger] nodes@[i]) by {
                        if i == nodes@.len() - 1 {
                            assert(entry_shown(entries@[k as int]));
                        } else {
                            assert(nodes@[i] == before_nodes[i]);
                            assert(from_entry(repo_root@, entries@, k as int, before_nodes[i]));
                        }
                    }
                    assert(has_node(nodes@, id@)) by {
                        assert(nodes@[nodes@.len() - 1].id@ == id@);
                    }
                }
            } else {
                proof {
                    let q = texts(ids@);
                    let a = choose|a: int| 0 <= a < q.len() && q[a] == id@;
                    assert(nodes@[a].id@ == id@);
                    assert(has_node(nodes@, id@));
                    assert forall|i: int| 1 <= i < nodes@.len() implies from_entry(repo_root@, entries@, k + 1, #[trigger] nodes@[i]) by {
                        assert(from_entry(repo_root@, entries@, k as int, nodes@[i]));
                    }
                }
            }
            let edge = make_edge(&parent_id, &id);
            edges.push(edge);
            proof {
                assert(forall|i: int| 0 <= i < before_nodes.len() ==> nodes@[i] == before_nodes[i]);
                assert(forall|j: int| 0 <= j < before_edges.len() ==> edges@[j] == before_edges[j]);
                assert(has_node(nodes@, sid)) by {
                    assert(nodes@[0].id@ == sid);
                }
                assert forall|h: Seq<char>| has_node(before_nodes, h) implies has_node(nodes@, h) by {
                    let i = choose|i: int| 0 <= i < before_nodes.len() && #[trigger] before_nodes[i].id@ == h;
                    assert(nodes@[i].id@ == h);
                }
                assert forall|q: Seq<char>| key_present(before_edges, q) implies key_present(edges@, q) by {
                    let j = choose|j: int| 0 <= j < before_edges.len() && #[trigger] before_edges[j].key() == q;
                    assert(edges@[j].key() == q);
                }
                assert(key_present(edges@, edge_id(sid, entry_id(repo_root@, entries@[k as int])))) by {
                    assert(edges@[edges@.len() - 1].key() == edge_id(sid, entry_id(repo_root@, entries@[k as int])));
                }
                assert(parent_edge(repo_root@, sid, entries@, edges@[edges@.len() - 1]));
                assert forall|j: int| 0 <= j < edges@.len() implies parent_edge(repo_root@, sid, entries@, #[trigger] edges@[j]) by {
                    if j < before_edges.len() {
                        assert(parent_edge(repo_root@, sid, entries@, before_edges[j]));
                    }
                }
            }
        } else {
            proof {
                assert(!entry_shown(entries@[k as int]));
            }
        }
        k += 1;
    }
    let ghost all_nodes = nodes@;
    let mut k2: usize = 0;
    while k2 < entries.len()
        invariant
            k == entries@.len(),
            k2 <= entries@.len(),
            nodes@ == all_nodes,
            texts(ids@) == node_ids(nodes@),
            forall|e: int|
                0 <= e < k && entry_shown(#[trigger] entries@[e]) ==> has_node(nodes@, entry_id(repo_root@, entries@[e])),
            forall|e: int|
                0 <= e < k && entry_shown(#[trigger] entries@[e]) ==> key_present(
                    edges@,
                    edge_id(sid, entry_id(repo_root@, entries@[e])),
                ),
            edges_join_nodes(nodes@, edges@),
            forall|e: int|
                0 <= e < k2 && entry_shown(entries@[e]) && !entries@[e].is_dir ==> imports_linked(
                    repo_root@,
                    #[trigger] entries@[e],
                    entries@[e].imports@.len() as int,
                    texts(ids@),
                    edges@,
                ),
            forall|j: int|
                0 <= j < edges@.len() ==> parent_edge(repo_root@, sid, entries@, #[trigger] edges@[j]) || import_edge_of(
                    repo_root@,
                    entries@,
                    texts(ids@),
                    edges@[j],
                ),
        decreases entries@.len() - k2,
    {
        let e = &entries[k2];
        let shown = !should_skip_dir_name(e.name.as_str()) && !path_has_forbidden_component(e.path.as_str())
            && (e.is_dir || (e.is_file && is_allowed_ext(e.path.as_str())));
        if shown && !e.is_dir {
            let rel = match rel_str(repo_root, e.path.as_str()) {
                Some(r) => r,
                None => e.name.clone(),
            };
            let src_id = normalize_module_id(rel.as_str());
            proof {
                assert(entry_shown(entries@[k2 as int]));
                assert(has_node(nodes@, entry_id(repo_root@, entries@[k2 as int])));
            }
            let imports = &e.imports;
            let mut m: usize = 0;
            while m < imports.len()
                invariant
                    k == entries@.len(),
                    k2 < entries@.len(),
                    e == &entries@[k2 as int],
                    entry_shown(*e),
                    !e.is_dir,
                    imports == &e.imports,
                    src_id@ == entry_id(repo_root@, *e),
                    has_node(nodes@, src_id@),
                    nodes@ == all_nodes,
                    forall|q: int|
                        0 <= q < k && entry_shown(#[trigger] entries@[q]) ==> has_node(nodes@, entry_id(repo_root@, entries@[q])),
                    texts(ids@) == node_ids(nodes@),
                    edges_join_nodes(nodes@, edges@),
                    forall|q: int|
                        0 <= q < k && entry_shown(#[trigger] entries@[q]) ==> key_present(
                            edges@,
                            edge_id(sid, entry_id(repo_root@, entries@[q])),
                        ),
                    forall|q: int|
                        0 <= q < k2 && entry_shown(entries@[q]) && !entries@[q].is_dir ==> imports_linked(
                            repo_root@,
                            #[trigger] entries@[q],
                            entries@[q].imports@.len() as int,
                            texts(ids@),
                            edges@,
                        ),
                    imports_linked(repo_root@, *e, m as int, texts(ids@), edges@),
                    forall|j: int|
                        0 <= j < edges@.len() ==> parent_edge(repo_root@, sid, entries@, #[trigger] edges@[j])
                            || import_edge_of(repo_root@, entries@, texts(ids@), edges@[j]),
                decreases imports@.len() - m,
            {
                let ghost before_edges = edges@;
                if let Some(dst) = resolve_among_nodes(repo_root, &imports[m], &ids) {
                    if !same_text(dst.as_str(), src_id.as_str()) {
                        let edge = make_edge(&src_id, &dst);
                        edges.push(edge);
                        proof {
                            let q = texts(ids@);
                            let a = choose|a: int| 0 <= a < q.len() && q[a] == dst@;
                            assert(nodes@[a].id@ == dst@);
                            assert(has_node(nodes@, dst@));
                            assert(forall|j: int| 0 <= j < before_edges.len() ==> edges@[j] == before_edges[j]);
                            assert(edges@[edges@.len() - 1].key() == edge_id(src_id@, dst@));
                            assert(entries@[k2 as int].imports@[m as int] == imports@[m as int]);
                            assert(import_edge_of(repo_root@, entries@, texts(ids@), edges@[edges@.len() - 1]));
                        }
                    }
                }
                proof {
                    assert forall|x: Seq<char>| key_present(before_edges, x) implies key_present(edges@, x) by {
                        let y = choose|y: int| 0 <= y < before_edges.len() && #[trigger] before_edges[y].key() == x;
                        assert(edges@[y].key() == x);
                    }
                    assert forall|q: int|
                        0 <= q < k && entry_shown(#[trigger] entries@[q]) implies key_present(
                            edges@,
                            edge_id(sid, entry_id(repo_root@, entries@[q])),
                        ) by {}
                    assert forall|q: int|
                        0 <= q < k2 && entry_shown(entries@[q]) && !entries@[q].is_dir implies imports_linked(
                            repo_root@,
                            #[trigger] entries@[q],
                            entries@[q].imports@.len() as int,
                            texts(ids@),
                            edges@,
                        ) by {
                        lemma_linked_carry(repo_root@, entries@[q], entries@[q].imports@.len() as int, texts(ids@), texts(ids@), before_edges, edges@);
                    }
                    lemma_linked_carry(repo_root@, *e, m as int, texts(ids@), texts(ids@), before_edges, edges@);
                    assert(e.imports@[m as int] == imports@[m as int]);
                    assert forall|j: int|
                        0 <= j < edges@.len() implies parent_edge(repo_root@, sid, entries@, #[trigger] edges@[j])
                            || import_edge_of(repo_root@, entries@, texts(ids@), edges@[j]) by {
                        if j < before_edges.len() {
                            assert(edges@[j] == before_edges[j]);
                        }
                    }
                }
                m += 1;
            }
        } else {
            proof {
                assert(!(entry_shown(entries@[k2 as int]) && !entries@[k2 as int].is_dir));
            }
        }
        k2 += 1;
    }
    let nodes_by_id = sort_by_key(nodes, false);
    let sorted_nodes = dedup_by_key(nodes_by_id, false);
    let edges_by_id = sort_by_key(edges, false);
    let sorted_edges = dedup_by_key(edges_by_id, false);
    let r = RepoMap { nodes: sorted_nodes, edges: sorted_edges };
    proof {
        assert(sid == scope_id(repo_root@, scope@, scope_abs@));
        // Every node of the result is one of the built nodes.
        assert forall|i: int| 0 <= i < r.nodes@.len() implies nodes@.contains(#[trigger] r.nodes@[i]) by {
            assert(nodes_by_id@.contains(r.nodes@[i]));
            lemma_same_members(nodes@, nodes_by_id@, r.nodes@[i]);
        }
        // The result has a node for every id that was built.
        assert forall|x: Seq<char>| has_node(nodes@, x) <==> has_node(r.nodes@, x) by {
            if has_node(nodes@, x) {
                let a = choose|a: int| 0 <= a < nodes@.len() && #[trigger] nodes@[a].id@ == x;
                assert(nodes@.contains(nodes@[a]));
                lemma_same_members(nodes@, nodes_by_id@, nodes@[a]);
                let b = choose|b: int| 0 <= b < nodes_by_id@.len() && nodes_by_id@[b] == nodes@[a];
                assert(key_present(r.nodes@, nodes_by_id@[b].key()));
                let c = choose|c: int| 0 <= c < r.nodes@.len() && #[trigger] r.nodes@[c].key() == x;
                assert(r.nodes@[c].id@ == x);
            }
            if has_node(r.nodes@, x) {
                let c = choose|c: int| 0 <= c < r.nodes@.len() && #[trigger] r.nodes@[c].id@ == x;
                assert(nodes@.contains(r.nodes@[c]));
                let a = choose|a: int| 0 <= a < nodes@.len() && nodes@[a] == r.nodes@[c];
                assert(nodes@[a].id@ == x);
            }
        }
        let old_ids = texts(ids@);
        let new_ids = node_ids(r.nodes@);
        assert forall|x: Seq<char>| old_ids.contains(x) <==> new_ids.contains(x) by {
            if old_ids.contains(x) {
                let a = choose|a: int| 0 <= a < old_ids.len() && old_ids[a] == x;
                assert(nodes@[a].id@ == x);
                assert(has_node(nodes@, x));
                let c = choose|c: int| 0 <= c < r.nodes@.len() && #[trigger] r.nodes@[c].id@ == x;
                assert(new_ids[c] == x);
            }
            if new_ids.contains(x) {
                let c = choose|c: int| 0 <= c < new_ids.len() && new_ids[c] == x;
                assert(r.nodes@[c].id@ == x);
                assert(has_node(r.nodes@, x));
                let a = choose|a: int| 0 <= a < nodes@.len() && #[trigger] nodes@[a].id@ == x;
                assert(old_ids[a] == x);
            }
        }
        // The scope's node survives.
        assert(has_node(nodes@, sid)) by {
            assert(nodes@[0].id@ == sid);
        }
        let c = choose|c: int| 0 <= c < r.nodes@.len() && #[trigger] r.nodes@[c].id@ == sid;
        assert(nodes@.contains(r.nodes@[c]));
        let a = choose|a: int| 0 <= a < nodes@.len() && nodes@[a] == r.nodes@[c];
        if a != 0 {
            assert(nodes@[0].id@ != nodes@[a].id@);
        }
        assert(scope_node(sid, slabel, r.nodes@[c]));
        assert forall|i: int|
            0 <= i < r.nodes@.len() implies scope_node(sid, slabel, #[trigger] r.nodes@[i]) || from_entry(
                repo_root@,
                entries@,
                entries@.len() as int,
                r.nodes@[i],
            ) by {
            assert(nodes@.contains(r.nodes@[i]));
            let a = choose|a: int| 0 <= a < nodes@.len() && nodes@[a] == r.nodes@[i];
        }
        // Edges.
        assert forall|q: Seq<char>| key_present(edges@, q) implies key_present(r.edges@, q) by {
            let j = choose|j: int| 0 <= j < edges@.len() && #[trigger] edges@[j].key() == q;
            assert(edges@.contains(edges@[j]));
            lemma_same_members(edges@, edges_by_id@, edges@[j]);
            let m = choose|m: int| 0 <= m < edges_by_id@.len() && edges_by_id@[m] == edges@[j];
            assert(key_present(r.edges@, edges_by_id@[m].key()));
        }
        assert forall|j: int| 0 <= j < r.edges@.len() implies edges@.contains(#[trigger] r.edges@[j]) by {
            assert(edges_by_id@.contains(r.edges@[j]));
            lemma_same_members(edges@, edges_by_id@, r.edges@[j]);
        }
        assert forall|j: int| 0 <= j < r.edges@.len() implies {
            &&& (#[trigger] r.edges@[j]).id@ == edge_id(r.edges@[j].source@, r.edges@[j].target@)
            &&& has_node(r.nodes@, r.edges@[j].source@)
            &&& has_node(r.nodes@, r.edges@[j].target@)
        } by {
            assert(edges@.contains(r.edges@[j]));
            let a = choose|a: int| 0 <= a < edges@.len() && edges@[a] == r.edges@[j];
            assert(has_node(nodes@, edges@[a].source@));
            assert(has_node(nodes@, edges@[a].target@));
        }
        assert forall|j: int|
            0 <= j < r.edges@.len() implies parent_edge(repo_root@, sid, entries@, #[trigger] r.edges@[j]) || import_edge_of(
                repo_root@,
                entries@,
                new_ids,
                r.edges@[j],
            ) by {
            assert(edges@.contains(r.edges@[j]));
            let a = choose|a: int| 0 <= a < edges@.len() && edges@[a] == r.edges@[j];
            if !parent_edge(repo_root@, sid, entries@, edges@[a]) {
                lemma_import_edge_carry(repo_root@, entries@, old_ids, new_ids, edges@[a]);
            }
        }
        assert forall|q: int|
            0 <= q < entries@.len() && entry_shown(entries@[q]) && !entries@[q].is_dir implies imports_linked(
                repo_root@,
                #[trigger] entries@[q],
                entries@[q].imports@.len() as int,
                new_ids,
                r.edges@,
            ) by {
            lemma_linked_carry(repo_root@, entries@[q], entries@[q].imports@.len() as int, old_ids, new_ids, edges@, r.edges@);
        }
    }
    r
}

/// Builds `RepoMap` for the repository root itself.
pub fn build_repo_map(repo_root: &str, entries: &Vec<DirEntry>) -> (r: RepoMap)
    ensures
        scoped_map_ok(repo_root@, repo_root@, repo_root@, entries@, r),
{
    build_repo_map_scoped(repo_root, repo_root, repo_root, entries)
}

/// One file that a walk of the graph root found. `imports` holds the
/// resolved paths of its imports (see `resolve_ts_import`).
#[derive(Debug, Clone)]
pub struct ModuleFile {
    pub path: String,
    pub bytes: u64,
    pub imports: Vec<String>,
}

/// The module root that file `f` marks, if it is a marker file outside the
/// deny-list.
pub open spec fn marker_root(f: ModuleFile) -> Option<Seq<char>> {
    if !has_denied_component(f.path@) && module_marker(file_name(f.path@)) {
        parent_of(f.path@)
    } else {
        None
    }
}

/// The module roots: the graph root first, then each directory that holds
/// a marker file, in the order found, without repeats.
pub open spec fn module_roots(files: Seq<ModuleFile>, root: Seq<char>) -> Seq<Seq<char>>
    decreases files.len(),
{
    if files.len() == 0 {
        seq![root]
    } else {
        let prev = module_roots(files.drop_last(), root);
        match marker_root(files.last()) {
            Some(p) => if prev.contains(p) {
                prev
            } else {
                prev.push(p)
            },
            None => prev,
        }
    }
}

/// A file that counts toward its module: outside the deny-list, of an
/// allowed kind, in some directory.
pub open spec fn counted(f: ModuleFile) -> bool {
    !has_denied_component(f.path@) && has_allowed_extension(f.path@) && parent_of(f.path@) is Some
}

/// The nearest module root at or above `dir`, walking up no further than
/// `stop`.
pub open spec fn owner_of(dir: Seq<char>, stop: Seq<char>, roots: Seq<Seq<char>>) -> Option<Seq<char>>
    decreases dir.len(),
{
    if roots.contains(dir) {
        Some(dir)
    } else if dir == stop {
        None
    } else {
        match parent_of(dir) {
            None => None,
            Some(p) => if p.len() < dir.len() {
                owner_of(p, stop, roots)
            } else {
                None
            },
        }
    }
}

/// The module that owns a file or directory: its nearest module root, or
/// the graph root.
pub open spec fn owner_or_root(dir: Seq<char>, root: Seq<char>, roots: Seq<Seq<char>>) -> Seq<char> {
    match owner_of(dir, root, roots) {
        Some(m) => m,
        None => root,
    }
}

/// `a + b`, held at `u64::MAX`.
pub open spec fn sat_add(a: u64, b: u64) -> u64 {
    if a + b > u64::MAX {
        u64::MAX
    } else {
        (a + b) as u64
    }
}

/// How many counted files module `m` owns.
pub open spec fn owned_count(files: Seq<ModuleFile>, root: Seq<char>, roots: Seq<Seq<char>>, m: Seq<char>) -> nat
    decreases files.len(),
{
    if files.len() == 0 {
        0
    } else {
        let f = files.last();
        owned_count(files.drop_last(), root, roots, m) + if counted(f) && owner_or_root(
            parent_of(f.path@)->0,
            root,
            roots,
        ) == m {
            1nat
        } else {
            0nat
        }
    }
}

/// Total bytes of the counted files module `m` owns, held at `u64::MAX`.
pub open spec fn owned_bytes(files: Seq<ModuleFile>, root: Seq<char>, roots: Seq<Seq<char>>, m: Seq<char>) -> u64
    decreases files.len(),
{
    if files.len() == 0 {
        0
    } else {
        let f = files.last();
        let prev = owned_bytes(files.drop_last(), root, roots, m);
        if counted(f) && owner_or_root(parent_of(f.path@)->0, root, roots) == m {
            sat_add(prev, f.bytes)
        } else {
            prev
        }
    }
}

/// The node id of module root `m`.
pub open spec fn module_node_id(repo_root: Seq<char>, m: Seq<char>) -> Seq<char> {
    module_id(
        match relative_text(repo_root, m) {
            Some(r) => r,
            None => "."@,
        },
    )
}

/// `n` is the node of module root `m`.
pub open spec fn module_node(
    repo_root: Seq<char>,
    root: Seq<char>,
    files: Seq<ModuleFile>,
    m: Seq<char>,
    n: ModuleNode,
) -> bool {
    let roots = module_roots(files, root);
    &&& n.id@ == module_node_id(repo_root, m)
    &&& n.path@ == module_node_id(repo_root, m)
    &&& n.label@ == module_label_of(repo_root, m)
    &&& n.file_count == owned_count(files, root, roots, m)
    &&& n.bytes == owned_bytes(files, root, roots, m)
    &&& n.size_class@ == size_class_of(owned_bytes(files, root, roots, m))
    &&& n.est_tokens == ceil_div(owned_bytes(files, root, roots, m) as int, 4)
}

/// `n` is the node of some module root.
pub open spec fn is_module_node(repo_root: Seq<char>, root: Seq<char>, files: Seq<ModuleFile>, n: ModuleNode) -> bool {
    exists|m: int|
        0 <= m < module_roots(files, root).len() && module_node(
            repo_root,
            root,
            files,
            #[trigger] module_roots(files, root)[m],
            n,
        )
}

/// Some node of `nodes` has the id of module root `m`.
pub open spec fn has_module_node(
    repo_root: Seq<char>,
    root: Seq<char>,
    files: Seq<ModuleFile>,
    m: Seq<char>,
    nodes: Seq<ModuleNode>,
) -> bool {
    exists|i: int| 0 <= i < nodes.len() && (#[trigger] nodes[i]).id@ == module_node_id(repo_root, m)
}

/// Index of `t` in `v`.
pub fn index_of_text(v: &Vec<String>, t: &str) -> (r: Option<usize>)
    ensures
        r matches Some(i) ==> i < v@.len() && v@[i as int]@ == t@,
        r is None ==> !texts(v@).contains(t@),
{
    let mut i: usize = 0;
    while i < v.len()
        invariant
            i <= v@.len(),
            forall|k: int| 0 <= k < i ==> v@[k]@ != t@,
        decreases v@.len() - i,
    {
        if same_text(v[i].as_str(), t) {
            return Some(i);
        }
        i += 1;
    }
    proof {
        if texts(v@).contains(t@) {
            let k = choose|k: int| 0 <= k < texts(v@).len() && texts(v@)[k] == t@;
            assert(v@[k]@ == t@);
        }
    }
    None
}

/// Index of the nearest module root at or above `dir`, walking up no
/// further than `stop_at`.
pub fn find_owner_module(dir: &str, stop_at: &str, module_roots: &Vec<String>) -> (r: Option<usize>)
    ensures
        r matches Some(i) ==> i < module_roots@.len() && owner_of(dir@, stop_at@, texts(module_roots@))
            == Some(module_roots@[i as int]@),
        r is None ==> owner_of(dir@, stop_at@, texts(module_roots@)) is None,
{
    let mut cur = String::from_str(dir);
    loop
        invariant
            owner_of(cur@, stop_at@, texts(module_roots@)) == owner_of(dir@, stop_at@, texts(module_roots@)),
        decreases cur@.len(),
    {
        if let Some(i) = index_of_text(module_roots, cur.as_str()) {
            proof {
                assert(texts(module_roots@)[i as int] == cur@);
            }
            return Some(i);
        }
        if same_text(cur.as_str(), stop_at) {
            return None;
        }
        match parent_path(cur.as_str()) {
            None => {
                return None;
            },
            Some(p) => {
                proof {
                    lemma_parent_shorter(cur@);
                }
                cur = p;
            },
        }
    }
}


/// No module root appears twice.
pub proof fn lemma_module_roots_distinct(files: Seq<ModuleFile>, root: Seq<char>)
    ensures
        module_roots(files, root).len() >= 1,
        module_roots(files, root)[0] == root,
        forall|a: int, b: int|
            0 <= a < b < module_roots(files, root).len() ==> module_roots(files, root)[a] != module_roots(
                files,
                root,
            )[b],
    decreases files.len(),
{
    if files.len() > 0 {
        lemma_module_roots_distinct(files.drop_last(), root);
        let prev = module_roots(files.drop_last(), root);
        if let Some(p) = marker_root(files.last()) {
            if !prev.contains(p) {
                let cur = prev.push(p);
                assert forall|a: int, b: int| 0 <= a < b < cur.len() implies cur[a] != cur[b] by {
                    if b == prev.len() {
                        assert(cur[a] == prev[a]);
                    }
                }
            }
        }
    }
}

/// No two edges share an id.
pub open spec fn ids_distinct(edges: Seq<ModuleEdge>) -> bool {
    forall|a: int, b: int| 0 <= a < b < edges.len() ==> (#[trigger] edges[a]).id@ != (#[trigger] edges[b]).id@
}

/// The weight of the edge with id `x`, or 0 where there is none.
pub open spec fn weight_of(edges: Seq<ModuleEdge>, x: Seq<char>) -> nat
    decreases edges.len(),
{
    if edges.len() == 0 {
        0
    } else if edges.last().id@ == x {
        edges.last().weight as nat
    } else {
        weight_of(edges.drop_last(), x)
    }
}

/// `n`, held at `u64::MAX`.
pub open spec fn capped(n: nat) -> nat {
    if n > u64::MAX {
        u64::MAX as nat
    } else {
        n
    }
}

proof fn lemma_weight_at(edges: Seq<ModuleEdge>, i: int)
    requires
        ids_distinct(edges),
        0 <= i < edges.len(),
    ensures
        weight_of(edges, edges[i].id@) == edges[i].weight,
    decreases edges.len(),
{
    if i < edges.len() - 1 {
        let d = edges.drop_last();
        assert(edges.last() == edges[edges.len() - 1]);
        assert(edges[i] == d[i]);
        lemma_weight_at(d, i);
    }
}

proof fn lemma_weight_update(edges: Seq<ModuleEdge>, i: int, e: ModuleEdge, y: Seq<char>)
    requires
        ids_distinct(edges),
        0 <= i < edges.len(),
        e.id@ == edges[i].id@,
    ensures
        weight_of(edges.update(i, e), y) == (if y == e.id@ {
            e.weight as nat
        } else {
            weight_of(edges, y)
        }),
    decreases edges.len(),
{
    let u = edges.update(i, e);
    if i == edges.len() - 1 {
        assert(u.drop_last() =~= edges.drop_last());
        if y == e.id@ {
        } else {
        }
    } else {
        let d = edges.drop_last();
        assert(u.drop_last() =~= d.update(i, e));
        assert(u.last() == edges.last());
        assert(edges.last().id@ != edges[i].id@) by {
            assert(edges[edges.len() - 1] == edges.last());
        }
        assert(ids_distinct(d)) by {
            assert forall|a: int, b: int| 0 <= a < b < d.len() implies (#[trigger] d[a]).id@ != (#[trigger] d[b]).id@ by {
                assert(d[a] == edges[a] && d[b] == edges[b]);
            }
        }
        assert(d[i] == edges[i]);
        lemma_weight_update(d, i, e, y);
        if y == e.id@ {
            assert(edges.last().id@ != y);
        }
    }
}

/// Adds one import from module `source` to module `target`: a new edge of
/// weight 1, or one more on the edge that exists.
fn add_weight(edges: &mut Vec<ModuleEdge>, source: &String, target: &String)
    requires
        ids_distinct(old(edges)@),
    ensures
        ids_distinct(final(edges)@),
        final(edges)@.len() >= old(edges)@.len(),
        forall|k: int|
            0 <= k < old(edges)@.len() ==> (#[trigger] final(edges)@[k]).id@ == old(edges)@[k].id@
                && final(edges)@[k].source@ == old(edges)@[k].source@ && final(edges)@[k].target@
                == old(edges)@[k].target@ && final(edges)@[k].weight >= old(edges)@[k].weight,
        forall|k: int|
            old(edges)@.len() <= k < final(edges)@.len() ==> (#[trigger] final(edges)@[k]).id@ == edge_id(
                source@,
                target@,
            ) && final(edges)@[k].source@ == source@ && final(edges)@[k].target@ == target@
                && final(edges)@[k].weight == 1,
        key_present(final(edges)@, edge_id(source@, target@)),
        forall|y: Seq<char>|
            key_present(final(edges)@, y) <==> (key_present(old(edges)@, y) || y == edge_id(source@, target@)),
        forall|y: Seq<char>|
            #[trigger] weight_of(final(edges)@, y) == (if y == edge_id(source@, target@) {
                if key_present(old(edges)@, y) {
                    sat_add(weight_of(old(edges)@, y) as u64, 1) as nat
                } else {
                    1
                }
            } else {
                weight_of(old(edges)@, y)
            }),
{
    let mut id = source.clone();
    id.append("->");
    id.append(target.as_str());
    let mut i: usize = 0;
    while i < edges.len()
        invariant
            i <= edges@.len(),
            edges@ == old(edges)@,
            id@ == edge_id(source@, target@),
            ids_distinct(edges@),
            forall|k: int| 0 <= k < i ==> edges@[k].id@ != id@,
        decreases edges@.len() - i,
    {
        if same_text(edges[i].id.as_str(), id.as_str()) {
            let w = edges[i].weight.saturating_add(1);
            let ghost before = edges@;
            let e = ModuleEdge { id: edges[i].id.clone(), source: edges[i].source.clone(), target: edges[i].target.clone(), weight: w };
            edges.set(i, e);
            proof {
                assert(edges@ =~= before.update(i as int, e));
                assert forall|k: int| 0 <= k < before.len() implies (#[trigger] edges@[k]).id@ == before[k].id@
                    && edges@[k].source@ == before[k].source@ && edges@[k].target@ == before[k].target@
                    && edges@[k].weight >= before[k].weight by {
                    if k != i {
                        assert(edges@[k] == before[k]);
                    }
                }
                assert(edges@[i as int].key() == edge_id(source@, target@));
                assert(ids_distinct(edges@)) by {
                    assert forall|a: int, b: int| 0 <= a < b < edges@.len() implies (#[trigger] edges@[a]).id@ != (#[trigger] edges@[b]).id@ by {
                        assert(edges@[a].id@ == before[a].id@ && edges@[b].id@ == before[b].id@);
                    }
                }
                lemma_weight_at(before, i as int);
                assert(key_present(before, id@)) by {
                    assert(before[i as int].key() == id@);
                }
                assert forall|y: Seq<char>|
                    #[trigger] weight_of(edges@, y) == (if y == edge_id(source@, target@) {
                        if key_present(before, y) {
                            sat_add(weight_of(before, y) as u64, 1) as nat
                        } else {
                            1
                        }
                    } else {
                        weight_of(before, y)
                    }) by {
                    lemma_weight_update(before, i as int, e, y);
                }
                assert forall|y: Seq<char>|
                    key_present(edges@, y) <==> (key_present(before, y) || y == edge_id(source@, target@)) by {
                    if key_present(edges@, y) {
                        let j = choose|j: int| 0 <= j < edges@.len() && #[trigger] edges@[j].key() == y;
                        assert(before[j].key() == y);
                    }
                    if key_present(before, y) {
                        let j = choose|j: int| 0 <= j < before.len() && #[trigger] before[j].key() == y;
                        assert(edges@[j].key() == y);
                    }
                }
            }
            return;
        }
        i += 1;
    }
    let ghost before = edges@;
    edges.push(ModuleEdge { id, source: source.clone(), target: target.clone(), weight: 1 });
    proof {
        assert(edges@[edges@.len() - 1].key() == edge_id(source@, target@));
        assert(!key_present(before, edge_id(source@, target@))) by {
            if key_present(before, edge_id(source@, target@)) {
                let j = choose|j: int| 0 <= j < before.len() && #[trigger] before[j].key() == edge_id(source@, target@);
            }
        }
        assert(edges@.drop_last() =~= before);
        assert(ids_distinct(edges@)) by {
            assert forall|a: int, b: int| 0 <= a < b < edges@.len() implies (#[trigger] edges@[a]).id@ != (#[trigger] edges@[b]).id@ by {
                if b < before.len() {
                    assert(edges@[a] == before[a] && edges@[b] == before[b]);
                } else {
                    assert(edges@[a] == before[a]);
                }
            }
        }
        assert forall|y: Seq<char>|
            key_present(edges@, y) <==> (key_present(before, y) || y == edge_id(source@, target@)) by {
            if key_present(edges@, y) {
                let j = choose|j: int| 0 <= j < edges@.len() && #[trigger] edges@[j].key() == y;
                if j < before.len() {
                    assert(before[j].key() == y);
                }
            }
            if key_present(before, y) {
                let j = choose|j: int| 0 <= j < before.len() && #[trigger] before[j].key() == y;
                assert(edges@[j].key() == y);
            }
        }
        assert forall|y: Seq<char>|
            #[trigger] weight_of(edges@, y) == (if y == edge_id(source@, target@) {
                if key_present(before, y) {
                    sat_add(weight_of(before, y) as u64, 1) as nat
                } else {
                    1
                }
            } else {
                weight_of(before, y)
            }) by {}
    }
}

/// The edge id that the import of `target` by file `f` adds to: from the
/// file's module to the target's, where the file counts, the target lies
/// outside the deny-list and has a directory, and the two modules differ.
pub open spec fn import_edge(
    repo_root: Seq<char>,
    root: Seq<char>,
    roots: Seq<Seq<char>>,
    f: ModuleFile,
    target: Seq<char>,
) -> Option<Seq<char>> {
    if counted(f) && !has_denied_component(target) && parent_of(target) is Some {
        let s = module_node_id(repo_root, owner_or_root(parent_of(f.path@)->0, root, roots));
        let t = module_node_id(repo_root, owner_or_root(parent_of(target)->0, root, roots));
        if s != t {
            Some(edge_id(s, t))
        } else {
            None
        }
    } else {
        None
    }
}

/// How many of the first `upto` imports of `f` add to edge `x`.
pub open spec fn import_hits(
    repo_root: Seq<char>,
    root: Seq<char>,
    roots: Seq<Seq<char>>,
    f: ModuleFile,
    upto: int,
    x: Seq<char>,
) -> nat
    decreases upto,
{
    if upto <= 0 {
        0
    } else {
        import_hits(repo_root, root, roots, f, upto - 1, x) + if import_edge(
            repo_root,
            root,
            roots,
            f,
            f.imports@[upto - 1]@,
        ) == Some(x) {
            1nat
        } else {
            0nat
        }
    }
}

/// How many imports of `files` add to edge `x`.
pub open spec fn import_count(
    repo_root: Seq<char>,
    root: Seq<char>,
    roots: Seq<Seq<char>>,
    files: Seq<ModuleFile>,
    x: Seq<char>,
) -> nat
    decreases files.len(),
{
    if files.len() == 0 {
        0
    } else {
        import_count(repo_root, root, roots, files.drop_last(), x) + import_hits(
            repo_root,
            root,
            roots,
            files.last(),
            files.last().imports@.len() as int,
            x,
        )
    }
}

proof fn lemma_hits_uncounted(
    repo_root: Seq<char>,
    root: Seq<char>,
    roots: Seq<Seq<char>>,
    f: ModuleFile,
    upto: int,
    x: Seq<char>,
)
    requires
        !counted(f),
    ensures
        import_hits(repo_root, root, roots, f, upto, x) == 0,
    decreases upto,
{
    if upto > 0 {
        lemma_hits_uncounted(repo_root, root, roots, f, upto - 1, x);
    }
}

/// Each of the first `upto` imports of `f` that adds to an edge finds that
/// edge in `edges`.
pub open spec fn links_present(
    repo_root: Seq<char>,
    root: Seq<char>,
    roots: Seq<Seq<char>>,
    f: ModuleFile,
    upto: int,
    edges: Seq<ModuleEdge>,
) -> bool {
    forall|k: int|
        0 <= k < upto ==> (import_edge(repo_root, root, roots, f, #[trigger] f.imports@[k]@) matches Some(id)
            ==> key_present(edges, id))
}

proof fn lemma_links_grow(
    repo_root: Seq<char>,
    root: Seq<char>,
    roots: Seq<Seq<char>>,
    f: ModuleFile,
    upto: int,
    old_edges: Seq<ModuleEdge>,
    new_edges: Seq<ModuleEdge>,
)
    requires
        links_present(repo_root, root, roots, f, upto, old_edges),
        forall|x: Seq<char>| key_present(old_edges, x) ==> key_present(new_edges, x),
    ensures
        links_present(repo_root, root, roots, f, upto, new_edges),
{
    assert forall|k: int| 0 <= k < upto implies (import_edge(repo_root, root, roots, f, #[trigger] f.imports@[k]@) matches Some(id)
        ==> key_present(new_edges, id)) by {
        if let Some(id) = import_edge(repo_root, root, roots, f, f.imports@[k]@) {
            assert(key_present(old_edges, id));
        }
    }
}

/// An edge of the module graph: its id, distinct ends that are module node
/// ids, and at least one import.
pub open spec fn module_edge_ok(repo_root: Seq<char>, roots: Seq<Seq<char>>, e: ModuleEdge) -> bool {
    &&& e.id@ == edge_id(e.source@, e.target@)
    &&& e.source@ != e.target@
    &&& e.weight >= 1
    &&& exists|a: int| 0 <= a < roots.len() && e.source@ == module_node_id(repo_root, #[trigger] roots[a])
    &&& exists|b: int| 0 <= b < roots.len() && e.target@ == module_node_id(repo_root, #[trigger] roots[b])
}

/// The module graph of the files under `root_abs`: one node per module
/// root (see `module_roots`), with the count, bytes and estimated tokens of
/// the counted files it owns; one edge per ordered pair of distinct
/// modules between which some counted file's resolved import runs,
/// weighted by how many do.
pub fn build_module_graph(repo_root: &str, root_abs: &str, files: &Vec<ModuleFile>) -> (r: ModuleGraph)
    ensures
        keys_strictly_sorted(r.nodes@, false),
        forall|i: int|
            0 <= i < r.nodes@.len() ==> is_module_node(repo_root@, root_abs@, files@, #[trigger] r.nodes@[i]),
        forall|m: int|
            0 <= m < module_roots(files@, root_abs@).len() ==> has_module_node(
                repo_root@,
                root_abs@,
                files@,
                #[trigger] module_roots(files@, root_abs@)[m],
                r.nodes@,
            ),
        keys_strictly_sorted(r.edges@, false),
        forall|j: int|
            0 <= j < r.edges@.len() ==> module_edge_ok(repo_root@, module_roots(files@, root_abs@), #[trigger] r.edges@[j]),
        forall|q: int|
            0 <= q < files@.len() ==> links_present(
                repo_root@,
                root_abs@,
                module_roots(files@, root_abs@),
                #[trigger] files@[q],
                files@[q].imports@.len() as int,
                r.edges@,
            ),
        forall|k: int|
            0 <= k < r.edges@.len() ==> (#[trigger] r.edges@[k]).weight == capped(
                import_count(repo_root@, root_abs@, module_roots(files@, root_abs@), files@, r.edges@[k].id@),
            ),
{
    let ghost fs = files@;
    // Module roots.
    let mut roots: Vec<String> = Vec::new();
    roots.push(String::from_str(root_abs));
    let mut i: usize = 0;
    proof {
        assert(texts(roots@) =~= module_roots(fs.subrange(0, 0), root_abs@));
    }
    while i < files.len()
        invariant
            i <= fs.len(),
            fs == files@,
            texts(roots@) == module_roots(fs.subrange(0, i as int), root_abs@),
        decreases fs.len() - i,
    {
        let f = &files[i];
        proof {
            assert(fs.subrange(0, i + 1).drop_last() =~= fs.subrange(0, i as int));
            assert(fs.subrange(0, i + 1).last() == f);
        }
        if !path_has_forbidden_component(f.path.as_str()) {
            let fc = chars_of(f.path.as_str());
            let name = string_of(file_name_chars(fc.as_slice()).as_slice());
            if is_module_marker_file(name.as_str()) {
                if let Some(p) = parent_path(f.path.as_str()) {
                    if !contains_text(&roots, p.as_str()) {
                        let ghost before = roots@;
                        roots.push(p);
                        proof {
                            assert(texts(roots@) =~= texts(before).push(p@));
                        }
                    }
                }
            }
        }
        i += 1;
    }
    proof {
        assert(fs.subrange(0, fs.len() as int) =~= fs);
        lemma_module_roots_distinct(fs, root_abs@);
    }
    let ghost rs = module_roots(fs, root_abs@);
    // The owning module of each counted file.
    let mut owners: Vec<Option<usize>> = Vec::new();
    let mut i: usize = 0;
    while i < files.len()
        invariant
            i <= fs.len(),
            fs == files@,
            texts(roots@) == rs,
            rs.len() >= 1,
            rs[0] == root_abs@,
            owners@.len() == i,
            forall|j: int|
                0 <= j < i ==> match #[trigger] owners@[j] {
                    Some(o) => o < rs.len() && counted(fs[j]) && rs[o as int] == owner_or_root(
                        parent_of(fs[j].path@)->0,
                        root_abs@,
                        rs,
                    ),
                    None => !counted(fs[j]),
                },
        decreases fs.len() - i,
    {
        let f = &files[i];
        let mut owner: Option<usize> = None;
        if !path_has_forbidden_component(f.path.as_str()) && is_allowed_ext(f.path.as_str()) {
            if let Some(p) = parent_path(f.path.as_str()) {
                owner = match find_owner_module(p.as_str(), root_abs, &roots) {
                    Some(o) => Some(o),
                    None => Some(0),
                };
            }
        }
        owners.push(owner);
        i += 1;
    }
    // Nodes.
    let mut nodes: Vec<ModuleNode> = Vec::new();
    let mut ids: Vec<String> = Vec::new();
    let mut m: usize = 0;
    while m < roots.len()
        invariant
            m <= rs.len(),
            rs == module_roots(fs, root_abs@),
            fs == files@,
            texts(roots@) == rs,
            owners@.len() == fs.len(),
            forall|a: int, b: int| 0 <= a < b < rs.len() ==> rs[a] != rs[b],
            forall|j: int|
                0 <= j < fs.len() ==> match #[trigger] owners@[j] {
                    Some(o) => o < rs.len() && counted(fs[j]) && rs[o as int] == owner_or_root(
                        parent_of(fs[j].path@)->0,
                        root_abs@,
                        rs,
                    ),
                    None => !counted(fs[j]),
                },
            nodes@.len() == m,
            ids@.len() == m,
            forall|a: int| 0 <= a < m ==> module_node(repo_root@, root_abs@, fs, rs[a], #[trigger] nodes@[a]),
            forall|a: int| 0 <= a < m ==> (#[trigger] ids@[a])@ == module_node_id(repo_root@, rs[a]),
        decreases rs.len() - m,
    {
        let mut count: u64 = 0;
        let mut bytes: u64 = 0;
        let mut j: usize = 0;
        while j < files.len()
            invariant
                j <= fs.len(),
                m < rs.len(),
                fs == files@,
                owners@.len() == fs.len(),
                forall|a: int, b: int| 0 <= a < b < rs.len() ==> rs[a] != rs[b],
                forall|q: int|
                    0 <= q < fs.len() ==> match #[trigger] owners@[q] {
                        Some(o) => o < rs.len() && counted(fs[q]) && rs[o as int] == owner_or_root(
                            parent_of(fs[q].path@)->0,
                            root_abs@,
                            rs,
                        ),
                        None => !counted(fs[q]),
                    },
                count == owned_count(fs.subrange(0, j as int), root_abs@, rs, rs[m as int]),
                count <= j,
                bytes == owned_bytes(fs.subrange(0, j as int), root_abs@, rs, rs[m as int]),
            decreases fs.len() - j,
        {
            proof {
                assert(fs.subrange(0, j + 1).drop_last() =~= fs.subrange(0, j as int));
                assert(fs.subrange(0, j + 1).last() == fs[j as int]);
            }
            let mine = match owners[j] {
                Some(o) => o == m,
                None => false,
            };
            proof {
                match owners@[j as int] {
                    Some(o) => {
                        if o != m {
                            assert(rs[o as int] != rs[m as int]);
                        }
                    },
                    None => {},
                }
            }
            if mine {
                count = count + 1;
                bytes = bytes.saturating_add(files[j].bytes);
            }
            j += 1;
        }
        proof {
            assert(fs.subrange(0, fs.len() as int) =~= fs);
        }
        let rel = match rel_str(repo_root, roots[m].as_str()) {
            Some(r) => r,
            None => String::from_str("."),
        };
        let id = normalize_module_id(rel.as_str());
        let node = ModuleNode {
            id: id.clone(),
            label: module_label(repo_root, roots[m].as_str()),
            path: id.clone(),
            file_count: count,
            bytes,
            size_class: size_class_from_bytes(bytes),
            est_tokens: est_tokens_from_bytes(bytes),
        };
        proof {
            assert(roots@[m as int]@ == rs[m as int]);
            assert(node.id@ == module_node_id(repo_root@, rs[m as int]));
            assert(node.label@ == module_label_of(repo_root@, rs[m as int]));
            assert(node.file_count == owned_count(fs, root_abs@, rs, rs[m as int]));
            assert(node.bytes == owned_bytes(fs, root_abs@, rs, rs[m as int]));
            assert(node.est_tokens == ceil_div(node.bytes as int, 4));
            assert(node.size_class@ == size_class_of(node.bytes));
            assert(node.path@ == module_node_id(repo_root@, rs[m as int]));
            assert(module_node(repo_root@, root_abs@, fs, rs[m as int], node));
        }
        let ghost before_nodes = nodes@;
        let ghost before_ids = ids@;
        nodes.push(node);
        ids.push(id);
        proof {
            assert(forall|a: int| 0 <= a < m ==> nodes@[a] == before_nodes[a]);
            assert(forall|a: int| 0 <= a < m ==> ids@[a] == before_ids[a]);
            assert(nodes@[m as int] == node);
        }
        m += 1;
    }
    // Edges.
    let mut edges: Vec<ModuleEdge> = Vec::new();
    let mut j: usize = 0;
    while j < files.len()
        invariant
            j <= fs.len(),
            fs == files@,
            texts(roots@) == rs,
            rs.len() >= 1,
            owners@.len() == fs.len(),
            ids@.len() == rs.len(),
            forall|a: int| 0 <= a < rs.len() ==> (#[trigger] ids@[a])@ == module_node_id(repo_root@, rs[a]),
            rs == module_roots(fs, root_abs@),
            rs[0] == root_abs@,
            forall|q: int|
                0 <= q < fs.len() ==> match #[trigger] owners@[q] {
                    Some(o) => o < rs.len() && counted(fs[q]) && rs[o as int] == owner_or_root(
                        parent_of(fs[q].path@)->0,
                        root_abs@,
                        rs,
                    ),
                    None => !counted(fs[q]),
                },
            forall|e: int| 0 <= e < edges@.len() ==> module_edge_ok(repo_root@, rs, #[trigger] edges@[e]),
            forall|q: int|
                0 <= q < j ==> links_present(repo_root@, root_abs@, rs, #[trigger] fs[q], fs[q].imports@.len() as int, edges@),
            ids_distinct(edges@),
            forall|x: Seq<char>|
                #[trigger] weight_of(edges@, x) == capped(import_count(repo_root@, root_abs@, rs, fs.subrange(0, j as int), x)),
            forall|x: Seq<char>|
                #[trigger] key_present(edges@, x) <==> import_count(repo_root@, root_abs@, rs, fs.subrange(0, j as int), x) > 0,
        decreases fs.len() - j,
    {
        if let Some(o) = owners[j] {
            let imports = &files[j].imports;
            let mut t: usize = 0;
            while t < imports.len()
                invariant
                    j < fs.len(),
                    fs == files@,
                    imports == &fs[j as int].imports,
                    t <= imports@.len(),
                    o < rs.len(),
                    counted(fs[j as int]),
                    rs[o as int] == owner_or_root(parent_of(fs[j as int].path@)->0, root_abs@, rs),
                    rs[0] == root_abs@,
                    texts(roots@) == rs,
                    rs.len() >= 1,
                    ids@.len() == rs.len(),
                    forall|a: int| 0 <= a < rs.len() ==> (#[trigger] ids@[a])@ == module_node_id(repo_root@, rs[a]),
                    forall|e: int| 0 <= e < edges@.len() ==> module_edge_ok(repo_root@, rs, #[trigger] edges@[e]),
                    forall|q: int|
                        0 <= q < j ==> links_present(repo_root@, root_abs@, rs, #[trigger] fs[q], fs[q].imports@.len() as int, edges@),
                    links_present(repo_root@, root_abs@, rs, fs[j as int], t as int, edges@),
                    ids_distinct(edges@),
                    forall|x: Seq<char>|
                        #[trigger] weight_of(edges@, x) == capped(
                            import_count(repo_root@, root_abs@, rs, fs.subrange(0, j as int), x) + import_hits(
                                repo_root@,
                                root_abs@,
                                rs,
                                fs[j as int],
                                t as int,
                                x,
                            ),
                        ),
                    forall|x: Seq<char>|
                        #[trigger] key_present(edges@, x) <==> import_count(repo_root@, root_abs@, rs, fs.subrange(0, j as int), x)
                            + import_hits(repo_root@, root_abs@, rs, fs[j as int], t as int, x) > 0,
                decreases imports@.len() - t,
            {
                let ghost before_t = edges@;
                let ghost mut hit: Option<Seq<char>> = None;
                let target_denied = path_has_forbidden_component(imports[t].as_str());
                if target_denied {
                } else if let Some(pd) = parent_path(imports[t].as_str()) {
                    let d = match find_owner_module(pd.as_str(), root_abs, &roots) {
                        Some(d) => d,
                        None => 0,
                    };
                    proof {
                        assert(rs[d as int] == owner_or_root(pd@, root_abs@, rs));
                    }
                    if !same_text(ids[d].as_str(), ids[o].as_str()) {
                        let ghost before = edges@;
                        add_weight(&mut edges, &ids[o], &ids[d]);
                        proof {
                            hit = Some(edge_id(ids@[o as int]@, ids@[d as int]@));
                            assert(ids@[o as int]@ == module_node_id(repo_root@, rs[o as int]));
                            assert(ids@[d as int]@ == module_node_id(repo_root@, rs[d as int]));
                            assert forall|e: int| 0 <= e < edges@.len() implies module_edge_ok(repo_root@, rs, #[trigger] edges@[e]) by {
                                if e < before.len() {
                                    assert(module_edge_ok(repo_root@, rs, before[e]));
                                } else {
                                    assert(edges@[e].source@ == module_node_id(repo_root@, rs[o as int]));
                                    assert(edges@[e].target@ == module_node_id(repo_root@, rs[d as int]));
                                }
                            }
                        }
                    }
                }
                proof {
                    let f = fs[j as int];
                    let target = f.imports@[t as int]@;
                    assert(f.imports@[t as int] == imports@[t as int]);
                    let c0 = |x: Seq<char>| import_count(repo_root@, root_abs@, rs, fs.subrange(0, j as int), x);
                    assert forall|x: Seq<char>|
                        import_hits(repo_root@, root_abs@, rs, f, t + 1, x) == import_hits(repo_root@, root_abs@, rs, f, t as int, x)
                            + if import_edge(repo_root@, root_abs@, rs, f, target) == Some(x) { 1nat } else { 0nat } by {}
                    assert(import_edge(repo_root@, root_abs@, rs, f, target) == hit);
                    if hit is None {
                        assert(edges@ == before_t);
                    }
                    assert forall|x: Seq<char>|
                        #[trigger] weight_of(edges@, x) == capped(
                            c0(x) + import_hits(repo_root@, root_abs@, rs, f, t + 1, x),
                        ) by {
                        if import_edge(repo_root@, root_abs@, rs, f, target) == Some(x) {
                            if key_present(before_t, x) {
                                assert(weight_of(before_t, x) == capped(c0(x) + import_hits(repo_root@, root_abs@, rs, f, t as int, x)));
                            } else {
                                assert(c0(x) + import_hits(repo_root@, root_abs@, rs, f, t as int, x) == 0);
                            }
                        }
                    }
                    assert forall|x: Seq<char>|
                        #[trigger] key_present(edges@, x) <==> c0(x) + import_hits(repo_root@, root_abs@, rs, f, t + 1, x) > 0 by {
                    }
                    assert forall|x: Seq<char>| key_present(before_t, x) implies key_present(edges@, x) by {
                        let y = choose|y: int| 0 <= y < before_t.len() && #[trigger] before_t[y].key() == x;
                        assert(edges@[y].key() == x);
                    }
                    assert forall|q: int| 0 <= q < j implies links_present(repo_root@, root_abs@, rs, #[trigger] fs[q], fs[q].imports@.len() as int, edges@) by {
                        lemma_links_grow(repo_root@, root_abs@, rs, fs[q], fs[q].imports@.len() as int, before_t, edges@);
                    }
                    lemma_links_grow(repo_root@, root_abs@, rs, fs[j as int], t as int, before_t, edges@);
                    let f = fs[j as int];
                    assert(f.imports@[t as int] == imports@[t as int]);
                }
                t += 1;
            }
            proof {
                assert(t == fs[j as int].imports@.len());
            }
        } else {
            proof {
                assert(!counted(fs[j as int]));
                assert forall|k: int| 0 <= k < fs[j as int].imports@.len() implies (import_edge(repo_root@, root_abs@, rs, fs[j as int], #[trigger] fs[j as int].imports@[k]@) matches Some(id)
                    ==> key_present(edges@, id)) by {}
                assert forall|x: Seq<char>|
                    import_hits(repo_root@, root_abs@, rs, fs[j as int], fs[j as int].imports@.len() as int, x) == 0 by {
                    lemma_hits_uncounted(repo_root@, root_abs@, rs, fs[j as int], fs[j as int].imports@.len() as int, x);
                }
            }
        }
        proof {
            let p = fs.subrange(0, j + 1);
            assert(p.drop_last() =~= fs.subrange(0, j as int));
            assert(p.last() == fs[j as int]);
        }
        j += 1;
    }
    let nodes_by_id = sort_by_key(nodes, false);
    let sorted_nodes = dedup_by_key(nodes_by_id, false);
    let edges_by_id = sort_by_key(edges, false);
    let sorted_edges = dedup_by_key(edges_by_id, false);
    let r = ModuleGraph { nodes: sorted_nodes, edges: sorted_edges };
    proof {
        assert forall|x: Seq<char>| key_present(edges@, x) implies key_present(r.edges@, x) by {
            let y = choose|y: int| 0 <= y < edges@.len() && #[trigger] edges@[y].key() == x;
            assert(edges@.contains(edges@[y]));
            lemma_same_members(edges@, edges_by_id@, edges@[y]);
            let m = choose|m: int| 0 <= m < edges_by_id@.len() && edges_by_id@[m] == edges@[y];
            assert(key_present(r.edges@, edges_by_id@[m].key()));
        }
        assert forall|q: int| 0 <= q < fs.len() implies links_present(repo_root@, root_abs@, rs, #[trigger] fs[q], fs[q].imports@.len() as int, r.edges@) by {
            lemma_links_grow(repo_root@, root_abs@, rs, fs[q], fs[q].imports@.len() as int, edges@, r.edges@);
        }
        assert(fs.subrange(0, fs.len() as int) =~= fs);
        assert forall|k: int| 0 <= k < r.edges@.len() implies (#[trigger] r.edges@[k]).weight == capped(
            import_count(repo_root@, root_abs@, rs, fs, r.edges@[k].id@),
        ) by {
            assert(edges_by_id@.contains(r.edges@[k]));
            lemma_same_members(edges@, edges_by_id@, r.edges@[k]);
            let a = choose|a: int| 0 <= a < edges@.len() && edges@[a] == r.edges@[k];
            lemma_weight_at(edges@, a);
            assert(weight_of(edges@, edges@[a].id@) == capped(import_count(repo_root@, root_abs@, rs, fs, edges@[a].id@)));
        }
        assert forall|i: int|
            0 <= i < r.nodes@.len() implies is_module_node(repo_root@, root_abs@, fs, #[trigger] r.nodes@[i]) by {
            assert(nodes_by_id@.contains(r.nodes@[i]));
            lemma_same_members(nodes@, nodes_by_id@, r.nodes@[i]);
            let a = choose|a: int| 0 <= a < nodes@.len() && nodes@[a] == r.nodes@[i];
            assert(module_node(repo_root@, root_abs@, fs, rs[a], nodes@[a]));
        }
        assert forall|m: int|
            0 <= m < rs.len() implies has_module_node(repo_root@, root_abs@, fs, #[trigger] rs[m], r.nodes@) by {
            assert(nodes@.contains(nodes@[m]));
            lemma_same_members(nodes@, nodes_by_id@, nodes@[m]);
            let b = choose|b: int| 0 <= b < nodes_by_id@.len() && nodes_by_id@[b] == nodes@[m];
            assert(key_present(r.nodes@, nodes_by_id@[b].key()));
            let i = choose|i: int| 0 <= i < r.nodes@.len() && #[trigger] r.nodes@[i].key() == nodes@[m].id@;
            assert(r.nodes@[i].id@ == module_node_id(repo_root@, rs[m]));
        }
        assert forall|e: int| 0 <= e < r.edges@.len() implies module_edge_ok(repo_root@, rs, #[trigger] r.edges@[e]) by {
            assert(edges_by_id@.contains(r.edges@[e]));
            lemma_same_members(edges@, edges_by_id@, r.edges@[e]);
            let a = choose|a: int| 0 <= a < edges@.len() && edges@[a] == r.edges@[e];
            assert(module_edge_ok(repo_root@, rs, edges@[a]));
        }
    }
    r
}


/// A scoped map never shows an entry whose name is denied or whose path
/// has a denied piece at any depth: every node but the scope's own stands
/// for an entry free of both.
pub proof fn lemma_scoped_map_hides_denied(
    repo_root: Seq<char>,
    scope: Seq<char>,
    scope_abs: Seq<char>,
    entries: Seq<DirEntry>,
    r: RepoMap,
    i: int,
)
    requires
        scoped_map_ok(repo_root, scope, scope_abs, entries, r),
        0 <= i < r.nodes@.len(),
        !scope_node(scope_id(repo_root, scope, scope_abs), scope_label(repo_root, scope, scope_abs), r.nodes@[i]),
    ensures
        exists|k: int|
            0 <= k < entries.len() && entry_node(repo_root, #[trigger] entries[k], r.nodes@[i])
                && !deny_listed(entries[k].name@) && !has_denied_component(entries[k].path@),
{
    assert(from_entry(repo_root, entries, entries.len() as int, r.nodes@[i]));
}

/// A file with a denied piece anywhere in its path changes nothing in a
/// module graph: not the module roots, not any module's file count or
/// bytes.
pub proof fn lemma_denied_file_ignored(
    files: Seq<ModuleFile>,
    root: Seq<char>,
    f: ModuleFile,
    roots: Seq<Seq<char>>,
    m: Seq<char>,
)
    requires
        has_denied_component(f.path@),
    ensures
        module_roots(files.push(f), root) == module_roots(files, root),
        owned_count(files.push(f), root, roots, m) == owned_count(files, root, roots, m),
        owned_bytes(files.push(f), root, roots, m) == owned_bytes(files, root, roots, m),
{
    assert(files.push(f).drop_last() =~= files);
    assert(files.push(f).last() == f);
}

} // verus!
