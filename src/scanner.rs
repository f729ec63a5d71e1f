//! Which walked files a slice may use, in path order.
use vstd::prelude::*;
use vstd::string::StringExecFns;
use crate::order::{Keyed, dedup_by_key, key_present, keys_strictly_sorted, lemma_same_members, sort_by_key};
use crate::paths::{components, joined, join_path, split_components, strip_base, strip_base_chars};
use crate::text::{chars_of, string_of};
use crate::mapper::{contains_text, texts};

verus! {

/// A file chosen for slicing.
#[derive(Debug, Clone)]
pub struct FileEntry {
    pub abs_path: String,
    /// Path relative to the repository root.
    pub rel_path: String,
    pub bytes: u64,
}

impl Keyed for FileEntry {
    open spec fn key(&self) -> Seq<char> {
        self.rel_path@
    }

    fn key_text(&self) -> (r: &str) {
        self.rel_path.as_str()
    }
}

/// What to scan, and what to leave out.
#[derive(Debug, Clone)]
pub struct ScanOptions {
    pub repo_root: String,
    /// The file or directory to scan, absolute or relative to the root.
    pub target: String,
    /// Files larger than this are left out.
    pub max_file_bytes: u64,
    /// Directory names whose contents are left out.
    pub exclude_dir_names: Vec<String>,
}

impl ScanOptions {
    /// The target as a path: itself where absolute, else under the root.
    pub fn target_root(&self) -> (r: String)
        ensures
            r@ == joined(self.repo_root@, self.target@),
    {
        join_path(self.repo_root.as_str(), self.target.as_str())
    }
}

/// A file that the walk found, with its size.
#[derive(Debug, Clone)]
pub struct WalkedFile {
    pub abs_path: String,
    pub bytes: u64,
}

/// Why a scan failed.
#[derive(Debug, Clone, Copy, PartialEq, Eq)]
pub enum ScanError {
    /// A selected file does not lie under the repository root.
    NotUnderRoot,
}

/// Some piece of `p` is one of `names`.
pub open spec fn excluded(p: Seq<char>, names: Seq<Seq<char>>) -> bool {
    exists|i: int| 0 <= i < components(p).len() && names.contains(#[trigger] components(p)[i])
}

/// Whether some piece of `abs_path` is an excluded directory name.
pub fn should_exclude_path(abs_path: &str, exclude_dir_names: &Vec<String>) -> (r: bool)
    ensures
        r == excluded(abs_path@, texts(exclude_dir_names@)),
{
    if exclude_dir_names.len() == 0 {
        return false;
    }
    let cs = chars_of(abs_path);
    let parts = split_components(cs.as_slice());
    let ghost m = parts@.map_values(|c: Vec<char>| c@);
    let mut i: usize = 0;
    while i < parts.len()
        invariant
            i <= parts@.len(),
            m == components(abs_path@),
            m == parts@.map_values(|c: Vec<char>| c@),
            forall|k: int| 0 <= k < i ==> !texts(exclude_dir_names@).contains(#[trigger] m[k]),
        decreases parts@.len() - i,
    {
        let piece = string_of(parts[i].as_slice());
        proof {
            assert(m[i as int] == parts@[i as int]@);
        }
        if contains_text(exclude_dir_names, piece.as_str()) {
            return true;
        }
        i += 1;
    }
    false
}

/// `path` relative to `base`.
pub fn path_relative_to(path: &str, base: &str) -> (r: Result<String, ScanError>)
    ensures
        match r {
            Ok(s) => strip_base(path@, base@) == Some(s@),
            Err(_) => strip_base(path@, base@) is None,
        },
{
    let p = chars_of(path);
    let b = chars_of(base);
    match strip_base_chars(p.as_slice(), b.as_slice()) {
        Some(rest) => Ok(string_of(rest.as_slice())),
        None => Err(ScanError::NotUnderRoot),
    }
}

/// A walked file that a scan keeps: not below an excluded directory, not
/// empty, not over the size cap.
pub open spec fn kept(opts: ScanOptions, w: WalkedFile) -> bool {
    !excluded(w.abs_path@, texts(opts.exclude_dir_names@)) && w.bytes > 0 && w.bytes <= opts.max_file_bytes
}

/// `e` is the entry of walked file `w` under root `repo_root`.
pub open spec fn entry_of(repo_root: Seq<char>, w: WalkedFile, e: FileEntry) -> bool {
    &&& e.abs_path@ == w.abs_path@
    &&& strip_base(w.abs_path@, repo_root) == Some(e.rel_path@)
    &&& e.bytes == w.bytes
}

/// `e` is the entry of one of the first `n` walked files that are kept.
pub open spec fn from_walk(opts: ScanOptions, walked: Seq<WalkedFile>, n: int, e: FileEntry) -> bool {
    exists|i: int| 0 <= i < n && kept(opts, #[trigger] walked[i]) && entry_of(opts.repo_root@, walked[i], e)
}

/// The entries for the walked files that `kept` admits, sorted by relative
/// path; an error where one of those files lies outside the root.
pub fn scan_workspace(opts: &ScanOptions, walked: &Vec<WalkedFile>) -> (r: Result<Vec<FileEntry>, ScanError>)
    ensures
        r is Err <==> exists|i: int|
            0 <= i < walked@.len() && kept(*opts, #[trigger] walked@[i]) && strip_base(
                walked@[i].abs_path@,
                opts.repo_root@,
            ) is None,
        r matches Ok(v) ==> {
            &&& keys_strictly_sorted(v@, true)
            &&& forall|k: int| 0 <= k < v@.len() ==> from_walk(*opts, walked@, walked@.len() as int, #[trigger] v@[k])
            &&& forall|i: int|
                0 <= i < walked@.len() && kept(*opts, #[trigger] walked@[i]) ==> key_present(
                    v@,
                    strip_base(walked@[i].abs_path@, opts.repo_root@)->0,
                )
        },
{
    let mut entries: Vec<FileEntry> = Vec::new();
    let mut i: usize = 0;
    while i < walked.len()
        invariant
            i <= walked@.len(),
            entries@.len() <= i,
            forall|j: int|
                0 <= j < i && kept(*opts, #[trigger] walked@[j]) ==> strip_base(
                    walked@[j].abs_path@,
                    opts.repo_root@,
                ) is Some,
            forall|k: int| 0 <= k < entries@.len() ==> from_walk(*opts, walked@, i as int, #[trigger] entries@[k]),
            forall|j: int|
                0 <= j < i && kept(*opts, #[trigger] walked@[j]) ==> exists|k: int|
                    0 <= k < entries@.len() && entry_of(opts.repo_root@, walked@[j], #[trigger] entries@[k]),
        decreases walked@.len() - i,
    {
        let w = &walked[i];
        if !should_exclude_path(w.abs_path.as_str(), &opts.exclude_dir_names) && w.bytes > 0 && w.bytes
            <= opts.max_file_bytes {
            let rel = match path_relative_to(w.abs_path.as_str(), opts.repo_root.as_str()) {
                Ok(r) => r,
                Err(e) => {
                    proof {
                        assert(kept(*opts, walked@[i as int]));
                    }
                    return Err(e);
                },
            };
            let e = FileEntry { abs_path: w.abs_path.clone(), rel_path: rel, bytes: w.bytes };
            let ghost before = entries@;
            entries.push(e);
            proof {
                assert(entry_of(opts.repo_root@, walked@[i as int], entries@[before.len() as int]));
                assert forall|k: int| 0 <= k < entries@.len() implies from_walk(*opts, walked@, i + 1, #[trigger] entries@[k]) by {
                    if k < before.len() {
                        assert(entries@[k] == before[k]);
                        assert(from_walk(*opts, walked@, i as int, before[k]));
                    } else {
                        assert(kept(*opts, walked@[i as int]));
                    }
                }
                assert forall|j: int|
                    0 <= j < i + 1 && kept(*opts, #[trigger] walked@[j]) implies exists|k: int|
                        0 <= k < entries@.len() && entry_of(opts.repo_root@, walked@[j], #[trigger] entries@[k]) by {
                    if j < i {
                        let k = choose|k: int| 0 <= k < before.len() && entry_of(opts.repo_root@, walked@[j], #[trigger] before[k]);
                        assert(entries@[k] == before[k]);
                    } else {
                        assert(entry_of(opts.repo_root@, walked@[j], entries@[before.len() as int]));
                    }
                }
            }
        }
        i += 1;
    }
    let by_path = sort_by_key(entries, true);
    let sorted = dedup_by_key(by_path, true);
    proof {
        assert forall|k: int| 0 <= k < sorted@.len() implies from_walk(*opts, walked@, walked@.len() as int, #[trigger] sorted@[k]) by {
            assert(by_path@.contains(sorted@[k]));
            lemma_same_members(entries@, by_path@, sorted@[k]);
            let a = choose|a: int| 0 <= a < entries@.len() && entries@[a] == sorted@[k];
            assert(from_walk(*opts, walked@, walked@.len() as int, entries@[a]));
        }
        assert forall|j: int|
            0 <= j < walked@.len() && kept(*opts, #[trigger] walked@[j]) implies key_present(
                sorted@,
                strip_base(walked@[j].abs_path@, opts.repo_root@)->0,
            ) by {
            let a = choose|a: int| 0 <= a < entries@.len() && entry_of(opts.repo_root@, walked@[j], #[trigger] entries@[a]);
            assert(entries@.contains(entries@[a]));
            lemma_same_members(entries@, by_path@, entries@[a]);
            let k = choose|k: int| 0 <= k < by_path@.len() && by_path@[k] == entries@[a];
            assert(key_present(sorted@, by_path@[k].key()));
        }
    }
    Ok(sorted)
}

/// The entry list for a target that is one file: the file, unless it is
/// empty or over the size cap.
pub fn scan_single_file(repo_root: &str, abs_path: &str, bytes: u64, max_file_bytes: u64) -> (r: Result<
    Vec<FileEntry>,
    ScanError,
>)
    ensures
        bytes == 0 || bytes > max_file_bytes ==> (r matches Ok(v) && v@.len() == 0),
        0 < bytes <= max_file_bytes ==> match r {
            Ok(v) => v@.len() == 1 && v@[0].abs_path@ == abs_path@ && strip_base(abs_path@, repo_root@) == Some(
                v@[0].rel_path@,
            ) && v@[0].bytes == bytes,
            Err(_) => strip_base(abs_path@, repo_root@) is None,
        },
{
    if bytes == 0 || bytes > max_file_bytes {
        return Ok(Vec::new());
    }
    let rel = path_relative_to(abs_path, repo_root)?;
    let mut v: Vec<FileEntry> = Vec::new();
    v.push(FileEntry { abs_path: String::from_str(abs_path), rel_path: rel, bytes });
    Ok(v)
}

} // verus!
