//! Paths as text: `/`-separated, as the rest of the library stores them.
use vstd::prelude::*;
use crate::text::{chars_of, copy_range, push_char, same_text, string_of};
use vstd::string::StringExecFns;

verus! {

/// Index of the first `/` in `s`, if any.
pub open spec fn first_slash(s: Seq<char>) -> Option<int>
    decreases s.len(),
{
    if s.len() == 0 {
        None
    } else if s[0] == '/' {
        Some(0)
    } else {
        match first_slash(s.drop_first()) {
            Some(k) => Some(k + 1),
            None => None,
        }
    }
}

/// The `/`-separated pieces of `s`, empty ones included.
pub open spec fn components(s: Seq<char>) -> Seq<Seq<char>>
    decreases s.len(),
{
    match first_slash(s) {
        None => seq![s],
        Some(k) => if 0 <= k < s.len() {
            seq![s.subrange(0, k)] + components(s.subrange(k + 1, s.len() as int))
        } else {
            seq![s]
        },
    }
}

/// The last piece of `s`: its file name.
pub open spec fn file_name(s: Seq<char>) -> Seq<char> {
    components(s).last()
}

/// Index of the last `.` in `s`, if any.
pub open spec fn last_dot(s: Seq<char>) -> Option<int>
    decreases s.len(),
{
    if s.len() == 0 {
        None
    } else if s.last() == '.' {
        Some(s.len() - 1)
    } else {
        last_dot(s.drop_last())
    }
}

/// The extension of the file name: what follows its last `.`, unless that
/// dot is the name's first character.
pub open spec fn extension(s: Seq<char>) -> Option<Seq<char>> {
    let name = file_name(s);
    match last_dot(name) {
        Some(k) => if 0 < k < name.len() {
            Some(name.subrange(k + 1, name.len() as int))
        } else {
            None
        },
        None => None,
    }
}

proof fn lemma_first_slash(s: Seq<char>, k: int)
    requires
        0 <= k <= s.len(),
        forall|i: int| 0 <= i < k ==> s[i] != '/',
    ensures
        k < s.len() && s[k] == '/' ==> first_slash(s) == Some(k),
        k == s.len() ==> first_slash(s) is None,
    decreases k,
{
    if k > 0 {
        lemma_first_slash(s.drop_first(), k - 1);
    }
}

proof fn lemma_first_slash_bound(s: Seq<char>)
    ensures
        first_slash(s) matches Some(k) ==> 0 <= k < s.len() && s[k] == '/',
    decreases s.len(),
{
    if s.len() > 0 {
        lemma_first_slash_bound(s.drop_first());
    }
}

/// The `/`-separated pieces of `p`.
pub fn split_components(p: &[char]) -> (r: Vec<Vec<char>>)
    ensures
        r@.map_values(|c: Vec<char>| c@) == components(p@),
{
    let mut out: Vec<Vec<char>> = Vec::new();
    let mut start: usize = 0;
    proof {
        assert(p@.subrange(0, p@.len() as int) =~= p@);
    }
    loop
        invariant
            start <= p@.len(),
            out@.map_values(|c: Vec<char>| c@) + components(p@.subrange(start as int, p@.len() as int))
                == components(p@),
        decreases p@.len() - start,
    {
        let ghost rest = p@.subrange(start as int, p@.len() as int);
        let mut k = start;
        while k < p.len() && p[k] != '/'
            invariant
                start <= k <= p@.len(),
                forall|i: int| start <= i < k ==> p@[i] != '/',
            decreases p@.len() - k,
        {
            k += 1;
        }
        proof {
            assert forall|i: int| 0 <= i < k - start implies rest[i] != '/' by {
                assert(rest[i] == p@[start + i]);
            }
            lemma_first_slash(rest, k - start);
        }
        let piece = copy_range(p, start, k);
        let ghost before = out@;
        out.push(piece);
        if k == p.len() {
            proof {
                assert(rest.subrange(0, k - start) =~= rest);
                assert(out@.map_values(|c: Vec<char>| c@) =~= before.map_values(|c: Vec<char>| c@).push(rest));
                assert(components(rest) == seq![rest]);
                assert(out@.map_values(|c: Vec<char>| c@) =~= before.map_values(|c: Vec<char>| c@) + components(rest));
            }
            return out;
        }
        proof {
            assert(rest[k - start] == '/');
            assert(rest.subrange(0, k - start) =~= piece@);
            assert(rest.subrange(k - start + 1, rest.len() as int) =~= p@.subrange(k + 1, p@.len() as int));
            assert(components(rest) == seq![piece@] + components(p@.subrange(k + 1, p@.len() as int)));
            assert(out@.map_values(|c: Vec<char>| c@) =~= before.map_values(|c: Vec<char>| c@).push(piece@));
        }
        start = k + 1;
    }
}


/// ASCII lower case of one character.
pub open spec fn fold_ascii(c: char) -> char {
    if 'A' <= c && c <= 'Z' {
        ((c as u32) + 32) as char
    } else {
        c
    }
}

/// `s` with ASCII letters in lower case.
pub open spec fn lowered(s: Seq<char>) -> Seq<char> {
    s.map_values(|c: char| fold_ascii(c))
}

/// Whether `a`, with ASCII letters in lower case, is `lower`.
pub fn lower_equals(a: &[char], lower: &str) -> (r: bool)
    ensures
        r == (lowered(a@) == lower@),
{
    let b = chars_of(lower);
    if a.len() != b.len() {
        proof {
            assert(lowered(a@).len() == a@.len());
        }
        return false;
    }
    let mut i: usize = 0;
    while i < a.len()
        invariant
            i <= a@.len() == b@.len(),
            b@ == lower@,
            forall|k: int| 0 <= k < i ==> fold_ascii(a@[k]) == b@[k],
        decreases a@.len() - i,
    {
        let c = a[i];
        let d = b[i];
        let same = if 'A' <= c && c <= 'Z' {
            'a' <= d && d <= 'z' && (d as u32) - (c as u32) == 32
        } else {
            c == d
        };
        if !same {
            proof {
                assert(lowered(a@)[i as int] == fold_ascii(c));
                if 'A' <= c && c <= 'Z' {
                    assert(fold_ascii(c) as u32 == (c as u32) + 32);
                }
            }
            return false;
        }
        proof {
            if 'A' <= c && c <= 'Z' {
                assert((c as u32) + 32 == d as u32);
                assert(fold_ascii(c) == d);
            }
        }
        i += 1;
    }
    proof {
        assert(lowered(a@) =~= b@);
    }
    true
}


/// The last `/`-separated piece of `p`.
pub fn file_name_chars(p: &[char]) -> (r: Vec<char>)
    ensures
        r@ == file_name(p@),
{
    let mut parts = split_components(p);
    proof {
        lemma_components_nonempty(p@);
    }
    let last = parts.pop().unwrap();
    proof {
        let m = parts@.push(last).map_values(|c: Vec<char>| c@);
        assert(m.last() == last@);
    }
    last
}

proof fn lemma_components_nonempty(s: Seq<char>)
    ensures
        components(s).len() >= 1,
    decreases s.len(),
{
    lemma_first_slash_bound(s);
    if let Some(k) = first_slash(s) {
        lemma_components_nonempty(s.subrange(k + 1, s.len() as int));
    }
}

/// The extension of the file name of `p`, as `extension` defines it.
pub fn extension_chars(p: &[char]) -> (r: Option<Vec<char>>)
    ensures
        match r {
            Some(e) => extension(p@) == Some(e@),
            None => extension(p@) is None,
        },
{
    let name = file_name_chars(p);
    let mut k = name.len();
    proof {
        assert(name@.subrange(0, k as int) =~= name@);
    }
    while k > 0 && name[k - 1] != '.'
        invariant
            k <= name@.len(),
            last_dot(name@) == last_dot(name@.subrange(0, k as int)),
        decreases k,
    {
        proof {
            assert(name@.subrange(0, k as int).drop_last() =~= name@.subrange(0, k - 1));
        }
        k -= 1;
    }
    if k <= 1 {
        return None;
    }
    Some(copy_range(name.as_slice(), k, name.len()))
}

/// The infrastructure directory names that no map or graph ever shows.
pub open spec fn deny_listed(name: Seq<char>) -> bool {
    ||| name == ".git"@
    ||| name == ".vscode"@
    ||| name == "node_modules"@
    ||| name == "dist"@
    ||| name == "build"@
    ||| name == "target"@
    ||| name == ".next"@
    ||| name == ".turbo"@
    ||| name == ".context-slicer"@
    ||| name == ".cargo"@
}

/// Whether a directory name is on the deny-list.
pub fn should_skip_dir_name(name: &str) -> (r: bool)
    ensures
        r == deny_listed(name@),
{
    same_text(name, ".git") || same_text(name, ".vscode") || same_text(name, "node_modules")
        || same_text(name, "dist") || same_text(name, "build") || same_text(name, "target")
        || same_text(name, ".next") || same_text(name, ".turbo") || same_text(
        name,
        ".context-slicer",
    ) || same_text(name, ".cargo")
}

/// Some piece of `p` is on the deny-list.
pub open spec fn has_denied_component(p: Seq<char>) -> bool {
    exists|i: int| 0 <= i < components(p).len() && deny_listed(#[trigger] components(p)[i])
}

/// Whether any piece of `path` is on the deny-list.
pub fn path_has_forbidden_component(path: &str) -> (r: bool)
    ensures
        r == has_denied_component(path@),
{
    let cs = chars_of(path);
    let parts = split_components(cs.as_slice());
    let ghost m = parts@.map_values(|c: Vec<char>| c@);
    let mut i: usize = 0;
    while i < parts.len()
        invariant
            i <= parts@.len(),
            m == components(path@),
            m == parts@.map_values(|c: Vec<char>| c@),
            forall|k: int| 0 <= k < i ==> !deny_listed(#[trigger] m[k]),
        decreases parts@.len() - i,
    {
        let name = string_of(parts[i].as_slice());
        proof {
            assert(m[i as int] == parts@[i as int]@);
        }
        if should_skip_dir_name(&name) {
            return true;
        }
        i += 1;
    }
    false
}

/// Extensions of the files that maps and graphs show.
pub open spec fn allowed_extension(e: Seq<char>) -> bool {
    ||| e == "rs"@
    ||| e == "ts"@
    ||| e == "tsx"@
    ||| e == "js"@
    ||| e == "jsx"@
    ||| e == "json"@
    ||| e == "md"@
    ||| e == "toml"@
    ||| e == "css"@
    ||| e == "scss"@
    ||| e == "sass"@
    ||| e == "html"@
}

/// `p` names a file of an allowed kind.
pub open spec fn has_allowed_extension(p: Seq<char>) -> bool {
    match extension(p) {
        Some(e) => allowed_extension(e),
        None => false,
    }
}

/// Whether the file at `path` has an allowed extension.
pub fn is_allowed_ext(path: &str) -> (r: bool)
    ensures
        r == has_allowed_extension(path@),
{
    let cs = chars_of(path);
    match extension_chars(cs.as_slice()) {
        None => false,
        Some(e) => {
            let e = string_of(e.as_slice());
            same_text(&e, "rs") || same_text(&e, "ts") || same_text(&e, "tsx") || same_text(&e, "js")
                || same_text(&e, "jsx") || same_text(&e, "json") || same_text(&e, "md")
                || same_text(&e, "toml") || same_text(&e, "css") || same_text(&e, "scss")
                || same_text(&e, "sass") || same_text(&e, "html")
        },
    }
}

/// File names that mark a directory as the root of a module.
pub open spec fn module_marker(name: Seq<char>) -> bool {
    ||| name == "package.json"@
    ||| name == "index.ts"@
    ||| name == "index.tsx"@
    ||| name == "index.js"@
    ||| name == "index.jsx"@
    ||| name == "mod.rs"@
    ||| name == "lib.rs"@
    ||| name == "main.rs"@
}

/// Whether a file name marks its directory as a module root.
pub fn is_module_marker_file(name: &str) -> (r: bool)
    ensures
        r == module_marker(name@),
{
    same_text(name, "package.json") || same_text(name, "index.ts") || same_text(name, "index.tsx")
        || same_text(name, "index.js") || same_text(name, "index.jsx") || same_text(name, "mod.rs")
        || same_text(name, "lib.rs") || same_text(name, "main.rs")
}

/// `p` with every backslash turned into `/`.
pub open spec fn forward_slashes(p: Seq<char>) -> Seq<char> {
    p.map_values(|c: char| if c == '\\' { '/' } else { c })
}

/// Writes a path with `/` separators.
pub fn normalize_path_for_output(p: &str) -> (r: String)
    ensures
        r@ == forward_slashes(p@),
{
    let cs = chars_of(p);
    let mut out = String::new();
    let mut i: usize = 0;
    while i < cs.len()
        invariant
            i <= cs@.len(),
            cs@ == p@,
            out@ == forward_slashes(cs@.subrange(0, i as int)),
        decreases cs@.len() - i,
    {
        let c = cs[i];
        push_char(&mut out, if c == '\\' { '/' } else { c });
        i += 1;
        proof {
            assert(forward_slashes(cs@.subrange(0, i as int)) =~= forward_slashes(
                cs@.subrange(0, i - 1),
            ).push(if c == '\\' { '/' } else { c }));
        }
    }
    proof {
        assert(cs@.subrange(0, i as int) =~= cs@);
    }
    out
}


/// `base` is a leading part of `p`.
pub open spec fn has_prefix(p: Seq<char>, base: Seq<char>) -> bool {
    base.len() <= p.len() && p.subrange(0, base.len() as int) == base
}

/// What is left of `p` below the directory `base`, or `None` where `p` does
/// not lie under it (`Path::strip_prefix`).
pub open spec fn strip_base(p: Seq<char>, base: Seq<char>) -> Option<Seq<char>> {
    if base.len() == 0 {
        Some(p)
    } else if p == base {
        Some(Seq::empty())
    } else if base.last() == '/' && has_prefix(p, base) {
        Some(p.subrange(base.len() as int, p.len() as int))
    } else if has_prefix(p, base) && base.len() < p.len() && p[base.len() as int] == '/' {
        Some(p.subrange(base.len() as int + 1, p.len() as int))
    } else {
        None
    }
}

/// Whether `base` is a leading part of `p`.
pub fn starts_with(p: &[char], base: &[char]) -> (r: bool)
    ensures
        r == has_prefix(p@, base@),
{
    if base.len() > p.len() {
        return false;
    }
    let mut i: usize = 0;
    while i < base.len()
        invariant
            i <= base@.len() <= p@.len(),
            p@.subrange(0, i as int) == base@.subrange(0, i as int),
        decreases base@.len() - i,
    {
        if p[i] != base[i] {
            proof {
                assert(p@.subrange(0, base@.len() as int)[i as int] == p@[i as int]);
            }
            return false;
        }
        proof {
            assert(p@.subrange(0, i + 1) =~= p@.subrange(0, i as int).push(p@[i as int]));
            assert(base@.subrange(0, i + 1) =~= base@.subrange(0, i as int).push(base@[i as int]));
        }
        i += 1;
    }
    proof {
        assert(base@.subrange(0, i as int) =~= base@);
    }
    true
}

/// `Path::strip_prefix` on text paths.
pub fn strip_base_chars(p: &[char], base: &[char]) -> (r: Option<Vec<char>>)
    ensures
        match r {
            Some(v) => strip_base(p@, base@) == Some(v@),
            None => strip_base(p@, base@) is None,
        },
{
    if base.len() == 0 {
        return Some(copy_range(p, 0, p.len()));
    }
    let pre = starts_with(p, base);
    if pre && p.len() == base.len() {
        proof {
            assert(p@ =~= base@);
        }
        return Some(Vec::new());
    }
    if base[base.len() - 1] == '/' && pre {
        return Some(copy_range(p, base.len(), p.len()));
    }
    if pre && base.len() < p.len() && p[base.len()] == '/' {
        return Some(copy_range(p, base.len() + 1, p.len()));
    }
    proof {
        if p@ == base@ {
            assert(p@.subrange(0, base@.len() as int) =~= base@);
        }
    }
    None
}

/// The path of `p` relative to `repo_root`, written with `/` separators.
pub open spec fn relative_text(repo_root: Seq<char>, p: Seq<char>) -> Option<Seq<char>> {
    match strip_base(p, repo_root) {
        Some(r) => Some(forward_slashes(r)),
        None => None,
    }
}

/// `p` relative to `repo_root`, with `/` separators, if it lies under it.
pub fn rel_str(repo_root: &str, p: &str) -> (r: Option<String>)
    ensures
        match r {
            Some(s) => relative_text(repo_root@, p@) == Some(s@),
            None => relative_text(repo_root@, p@) is None,
        },
{
    let pc = chars_of(p);
    let bc = chars_of(repo_root);
    match strip_base_chars(pc.as_slice(), bc.as_slice()) {
        Some(rest) => {
            let t = string_of(rest.as_slice());
            Some(normalize_path_for_output(&t))
        },
        None => None,
    }
}

/// The id of a node: its repository-relative path, or `.` for the root.
pub open spec fn module_id(rel: Seq<char>) -> Seq<char> {
    if rel.len() == 0 {
        "."@
    } else {
        rel
    }
}

/// Turns a repository-relative path into a node id.
pub fn normalize_module_id(rel: &str) -> (r: String)
    ensures
        r@ == module_id(rel@),
{
    if rel.is_empty() {
        String::from_str(".")
    } else {
        String::from_str(rel)
    }
}

/// The label of a node named `name`: the name, or `(unnamed)`.
pub open spec fn label_of(name: Seq<char>) -> Seq<char> {
    if name.len() == 0 {
        "(unnamed)"@
    } else {
        name
    }
}

/// A display label for an entry name.
pub fn clamp_label(name: &str) -> (r: String)
    ensures
        r@ == label_of(name@),
{
    if name.is_empty() {
        String::from_str("(unnamed)")
    } else {
        String::from_str(name)
    }
}

/// `name`, or `fallback` where `name` is empty.
pub open spec fn name_or(name: Seq<char>, fallback: Seq<char>) -> Seq<char> {
    if name.len() == 0 {
        fallback
    } else {
        name
    }
}

/// The label of a module: the repository's directory name for the root,
/// else the module directory's own name.
pub open spec fn module_label_of(repo_root: Seq<char>, module: Seq<char>) -> Seq<char> {
    if module == repo_root {
        name_or(file_name(repo_root), "root"@)
    } else {
        name_or(file_name(module), "module"@)
    }
}

/// Label of the module rooted at `module_abs`.
pub fn module_label(repo_root: &str, module_abs: &str) -> (r: String)
    ensures
        r@ == module_label_of(repo_root@, module_abs@),
{
    let root = chars_of(repo_root);
    let m = chars_of(module_abs);
    let same = same_text(repo_root, module_abs);
    let name = if same { file_name_chars(root.as_slice()) } else { file_name_chars(m.as_slice()) };
    if name.len() == 0 {
        if same {
            String::from_str("root")
        } else {
            String::from_str("module")
        }
    } else {
        string_of(name.as_slice())
    }
}

/// `rel` placed under `base` (`Path::join`): an absolute `rel` stands alone.
pub open spec fn joined(base: Seq<char>, rel: Seq<char>) -> Seq<char> {
    if rel.len() > 0 && rel[0] == '/' {
        rel
    } else if base.len() == 0 {
        rel
    } else if base.last() == '/' {
        base + rel
    } else {
        base + seq!['/'] + rel
    }
}

/// Joins two text paths.
pub fn join_path(base: &str, rel: &str) -> (r: String)
    ensures
        r@ == joined(base@, rel@),
{
    let b = chars_of(base);
    let rc = chars_of(rel);
    if rc.len() > 0 && rc[0] == '/' {
        return String::from_str(rel);
    }
    if b.len() == 0 {
        return String::from_str(rel);
    }
    let mut out = String::from_str(base);
    if b[b.len() - 1] != '/' {
        push_char(&mut out, '/');
    }
    out.append(rel);
    out
}

/// Index of the last `/` in `s`, if any.
pub open spec fn last_slash(s: Seq<char>) -> Option<int>
    decreases s.len(),
{
    if s.len() == 0 {
        None
    } else if s.last() == '/' {
        Some(s.len() - 1)
    } else {
        last_slash(s.drop_last())
    }
}

/// The directory holding `p` (`Path::parent`): `None` for the root and for
/// the empty path.
pub open spec fn parent_of(p: Seq<char>) -> Option<Seq<char>> {
    match last_slash(p) {
        None => if p.len() > 0 {
            Some(Seq::empty())
        } else {
            None
        },
        Some(k) => if k == 0 {
            if p.len() == 1 {
                None
            } else {
                Some(seq!['/'])
            }
        } else {
            Some(p.subrange(0, k))
        },
    }
}

/// A parent is shorter than its child.
pub proof fn lemma_parent_shorter(p: Seq<char>)
    ensures
        parent_of(p) matches Some(q) ==> q.len() < p.len(),
{
    lemma_last_slash_bound(p);
}

proof fn lemma_last_slash_bound(s: Seq<char>)
    ensures
        last_slash(s) matches Some(k) ==> 0 <= k < s.len(),
    decreases s.len(),
{
    if s.len() > 0 && s.last() != '/' {
        lemma_last_slash_bound(s.drop_last());
    }
}

/// The directory holding `p`.
pub fn parent_path(p: &str) -> (r: Option<String>)
    ensures
        match r {
            Some(s) => parent_of(p@) == Some(s@),
            None => parent_of(p@) is None,
        },
{
    let cs = chars_of(p);
    let mut k = cs.len();
    proof {
        assert(cs@.subrange(0, k as int) =~= cs@);
    }
    while k > 0 && cs[k - 1] != '/'
        invariant
            k <= cs@.len(),
            cs@ == p@,
            last_slash(p@) == last_slash(cs@.subrange(0, k as int)),
        decreases k,
    {
        proof {
            assert(cs@.subrange(0, k as int).drop_last() =~= cs@.subrange(0, k - 1));
        }
        k -= 1;
    }
    if k == 0 {
        if cs.len() > 0 {
            Some(String::new())
        } else {
            None
        }
    } else if k == 1 {
        if cs.len() == 1 {
            None
        } else {
            proof {
                reveal_strlit("/");
            }
            Some(String::from_str("/"))
        }
    } else {
        let head = copy_range(cs.as_slice(), 0, k - 1);
        Some(string_of(head.as_slice()))
    }
}

} // verus!
