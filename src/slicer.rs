//! Choosing files for a slice under a token budget.
use vstd::prelude::*;
use vstd::string::StringExecFns;
use crate::mapper::{ceil_div, sat_add};
use crate::scanner::FileEntry;

verus! {

/// Estimated tokens of `total_bytes` bytes at `chars_per_token` bytes a
/// token, rounded up; with no rate given, one token a byte.
pub open spec fn tokens_for(total_bytes: u64, chars_per_token: usize) -> int {
    if chars_per_token == 0 {
        total_bytes as int
    } else {
        ceil_div(total_bytes as int, chars_per_token as int)
    }
}

/// `tokens_for`, held at `usize::MAX`.
pub open spec fn capped_tokens(total_bytes: u64, chars_per_token: usize) -> int {
    if tokens_for(total_bytes, chars_per_token) > usize::MAX {
        usize::MAX as int
    } else {
        tokens_for(total_bytes, chars_per_token)
    }
}

/// `n` as a `usize`, held at `usize::MAX`.
fn to_usize(n: u64) -> (r: usize)
    ensures
        r == (if n > usize::MAX { usize::MAX as int } else { n as int }),
{
    if n as u128 > usize::MAX as u128 {
        usize::MAX
    } else {
        n as usize
    }
}

/// Estimated tokens of `total_bytes` bytes.
pub fn estimate_tokens_from_bytes(total_bytes: u64, chars_per_token: usize) -> (r: usize)
    ensures
        r == capped_tokens(total_bytes, chars_per_token),
{
    if chars_per_token == 0 {
        return to_usize(total_bytes);
    }
    let d = chars_per_token as u64;
    let q = total_bytes / d;
    proof {
        assert(total_bytes as int % d as int != 0 ==> q < u64::MAX) by (nonlinear_arith)
            requires
                q == total_bytes as int / d as int,
                d >= 1,
                total_bytes <= u64::MAX,
        ;
    }
    let r = if total_bytes % d == 0 { q } else { q + 1 };
    proof {
        assert(q <= total_bytes) by (nonlinear_arith)
            requires
                q == total_bytes as int / d as int,
                d >= 1,
        ;
        assert(r as int == ceil_div(total_bytes as int, d as int)) by (nonlinear_arith)
            requires
                q == total_bytes as int / d as int,
                r == (if total_bytes as int % d as int == 0 { q as int } else { q + 1 }),
                d >= 1,
        ;
    }
    to_usize(r)
}

/// The sizes of the entries, in order.
pub open spec fn sizes_of(entries: Seq<FileEntry>) -> Seq<u64> {
    entries.map_values(|e: FileEntry| e.bytes)
}

/// The greedy choice over files of `sizes`, in order: a file is taken when
/// the running total with it stays within the budget, and skipped
/// otherwise. Gives which files were taken and the total bytes taken.
pub open spec fn greedy(sizes: Seq<u64>, budget: usize, chars_per_token: usize) -> (Seq<bool>, u64)
    decreases sizes.len(),
{
    if sizes.len() == 0 {
        (Seq::empty(), 0)
    } else {
        let (taken, total) = greedy(sizes.drop_last(), budget, chars_per_token);
        let next = sat_add(total, sizes.last());
        if capped_tokens(next, chars_per_token) > budget {
            (taken.push(false), total)
        } else {
            (taken.push(true), next)
        }
    }
}

/// Which entries fit the budget, and their total bytes.
pub fn select_within_budget(entries: &Vec<FileEntry>, budget: usize, chars_per_token: usize) -> (r: (
    Vec<bool>,
    u64,
))
    ensures
        (r.0@, r.1) == greedy(sizes_of(entries@), budget, chars_per_token),
{
    let mut taken: Vec<bool> = Vec::new();
    let mut total: u64 = 0;
    let mut i: usize = 0;
    while i < entries.len()
        invariant
            i <= entries@.len(),
            (taken@, total) == greedy(sizes_of(entries@.subrange(0, i as int)), budget, chars_per_token),
        decreases entries@.len() - i,
    {
        proof {
            let s = sizes_of(entries@.subrange(0, i + 1));
            assert(s.drop_last() =~= sizes_of(entries@.subrange(0, i as int)));
            assert(s.last() == entries@[i as int].bytes);
        }
        let next = total.saturating_add(entries[i].bytes);
        if estimate_tokens_from_bytes(next, chars_per_token) > budget {
            taken.push(false);
        } else {
            taken.push(true);
            total = next;
        }
        i += 1;
    }
    proof {
        assert(entries@.subrange(0, i as int) =~= entries@);
    }
    (taken, total)
}

/// The entries whose flag is set, in order.
pub open spec fn chosen(entries: Seq<FileEntry>, taken: Seq<bool>) -> Seq<FileEntry>
    decreases entries.len(),
{
    if entries.len() == 0 || taken.len() == 0 {
        Seq::empty()
    } else {
        let prev = chosen(entries.drop_last(), taken.drop_last());
        if taken.last() {
            prev.push(entries.last())
        } else {
            prev
        }
    }
}

/// How a slice is to be cut.
#[derive(Debug, Clone)]
pub struct SliceConfig {
    /// Files larger than this are never scanned.
    pub max_file_bytes: u64,
    /// Bytes per estimated token.
    pub chars_per_token: usize,
}

/// A summary of a slice.
#[derive(Debug, Clone)]
pub struct SliceMeta {
    pub repo_root: String,
    pub target: String,
    pub budget_tokens: usize,
    pub total_tokens: usize,
    pub total_files: usize,
    pub total_bytes: u64,
}

/// The files of a slice and its summary.
#[derive(Debug, Clone)]
pub struct SlicePlan {
    pub picked: Vec<FileEntry>,
    pub meta: SliceMeta,
}

/// Chooses the files of a slice from scanned entries in path order: the
/// greedy choice of `greedy`, with its summary.
pub fn plan_slice(repo_root: &str, target: &str, budget_tokens: usize, cfg: &SliceConfig, entries: Vec<FileEntry>) -> (r:
    SlicePlan)
    ensures
        r.picked@ == chosen(entries@, greedy(sizes_of(entries@), budget_tokens, cfg.chars_per_token).0),
        r.meta.total_bytes == greedy(sizes_of(entries@), budget_tokens, cfg.chars_per_token).1,
        r.meta.total_tokens == capped_tokens(r.meta.total_bytes, cfg.chars_per_token),
        r.meta.total_files == r.picked@.len(),
        r.meta.budget_tokens == budget_tokens,
        r.meta.repo_root@ == repo_root@,
        r.meta.target@ == target@,
{
    let (taken, total) = select_within_budget(&entries, budget_tokens, cfg.chars_per_token);
    let ghost all = entries@;
    proof {
        lemma_greedy_len(sizes_of(all), budget_tokens, cfg.chars_per_token);
    }
    let mut src = entries;
    let mut kept: Vec<FileEntry> = Vec::new();
    let mut n = src.len();
    proof {
        assert(all.subrange(0, n as int) =~= all);
        assert(taken@.subrange(0, n as int) =~= taken@);
    }
    // Walk from the back, collecting chosen entries in reverse.
    let mut rev: Vec<FileEntry> = Vec::new();
    while n > 0
        invariant
            n <= all.len(),
            taken@.len() == all.len(),
            src@ == all.subrange(0, n as int),
            chosen(all, taken@) == chosen(all.subrange(0, n as int), taken@.subrange(0, n as int)) + rev@.reverse(),
        decreases n,
    {
        let e = src.pop().unwrap();
        proof {
            let a = all.subrange(0, n as int);
            let t = taken@.subrange(0, n as int);
            assert(a.drop_last() =~= all.subrange(0, n - 1));
            assert(t.drop_last() =~= taken@.subrange(0, n - 1));
            assert(a.last() == e);
            assert(t.last() == taken@[n - 1]);
        }
        let ghost old_rev = rev@;
        if taken[n - 1] {
            rev.push(e);
            proof {
                assert(rev@.reverse() =~= seq![e] + old_rev.reverse());
            }
        }
        n -= 1;
    }
    proof {
        assert(all.subrange(0, 0) =~= Seq::<FileEntry>::empty());
    }
    while rev.len() > 0
        invariant
            chosen(all, taken@) == kept@ + rev@.reverse(),
        decreases rev@.len(),
    {
        let ghost old_rev = rev@;
        let e = rev.pop().unwrap();
        proof {
            assert(old_rev =~= rev@.push(e));
            assert(old_rev.reverse() =~= seq![e] + rev@.reverse());
        }
        kept.push(e);
        proof {
            assert(kept@ + rev@.reverse() =~= chosen(all, taken@));
        }
    }
    proof {
        assert(rev@.reverse() =~= Seq::<FileEntry>::empty());
        assert(kept@ =~= chosen(all, taken@));
    }
    let total_tokens = estimate_tokens_from_bytes(total, cfg.chars_per_token);
    let total_files = kept.len();
    SlicePlan {
        picked: kept,
        meta: SliceMeta {
            repo_root: String::from_str(repo_root),
            target: String::from_str(target),
            budget_tokens,
            total_tokens,
            total_files,
            total_bytes: total,
        },
    }
}

proof fn lemma_greedy_len(sizes: Seq<u64>, budget: usize, chars_per_token: usize)
    ensures
        greedy(sizes, budget, chars_per_token).0.len() == sizes.len(),
    decreases sizes.len(),
{
    if sizes.len() > 0 {
        lemma_greedy_len(sizes.drop_last(), budget, chars_per_token);
    }
}


proof fn lemma_greedy_prefix(sizes: Seq<u64>, budget: usize, chars_per_token: usize, n: int)
    requires
        0 <= n <= sizes.len(),
    ensures
        greedy(sizes, budget, chars_per_token).0.subrange(0, n) == greedy(
            sizes.subrange(0, n),
            budget,
            chars_per_token,
        ).0,
    decreases sizes.len(),
{
    lemma_greedy_len(sizes, budget, chars_per_token);
    if n == sizes.len() {
        assert(sizes.subrange(0, n) =~= sizes);
        assert(greedy(sizes, budget, chars_per_token).0.subrange(0, n) =~= greedy(sizes, budget, chars_per_token).0);
    } else {
        let d = sizes.drop_last();
        lemma_greedy_prefix(d, budget, chars_per_token, n);
        lemma_greedy_len(d, budget, chars_per_token);
        assert(d.subrange(0, n) =~= sizes.subrange(0, n));
        assert(greedy(sizes, budget, chars_per_token).0.subrange(0, n) =~= greedy(d, budget, chars_per_token).0.subrange(0, n));
    }
}

proof fn lemma_all_taken_same(sizes: Seq<u64>, b1: usize, b2: usize, chars_per_token: usize)
    requires
        b1 <= b2,
        forall|i: int| 0 <= i < sizes.len() ==> #[trigger] greedy(sizes, b1, chars_per_token).0[i],
    ensures
        greedy(sizes, b2, chars_per_token) == greedy(sizes, b1, chars_per_token),
    decreases sizes.len(),
{
    if sizes.len() > 0 {
        let d = sizes.drop_last();
        lemma_greedy_len(d, b1, chars_per_token);
        let t1 = greedy(sizes, b1, chars_per_token).0;
        assert forall|i: int| 0 <= i < d.len() implies #[trigger] greedy(d, b1, chars_per_token).0[i] by {
            assert(t1[i] == greedy(d, b1, chars_per_token).0[i]);
        }
        lemma_all_taken_same(d, b1, b2, chars_per_token);
        assert(t1[sizes.len() - 1]);
    }
}

/// The taken flags form a leading run: every taken file comes before every
/// skipped one.
pub open spec fn leading_run(taken: Seq<bool>) -> bool {
    forall|i: int, j: int| 0 <= i < j < taken.len() && #[trigger] taken[j] ==> #[trigger] taken[i]
}

proof fn lemma_leading_run_end(t: Seq<bool>) -> (k: int)
    requires
        leading_run(t),
    ensures
        0 <= k <= t.len(),
        forall|j: int| 0 <= j < k ==> t[j],
        forall|j: int| k <= j < t.len() ==> !t[j],
    decreases t.len(),
{
    if t.len() == 0 {
        0
    } else if t.last() {
        assert forall|j: int| 0 <= j < t.len() implies t[j] by {
            if j < t.len() - 1 {
                assert(t[t.len() - 1] ==> t[j]);
            }
        }
        t.len() as int
    } else {
        let d = t.drop_last();
        assert(leading_run(d)) by {
            assert forall|i: int, j: int| 0 <= i < j < d.len() && #[trigger] d[j] implies #[trigger] d[i] by {
                assert(t[j] ==> t[i]);
            }
        }
        let k = lemma_leading_run_end(d);
        assert forall|j: int| 0 <= j < k implies t[j] by {
            assert(d[j] == t[j]);
        }
        assert forall|j: int| k <= j < t.len() implies !t[j] by {
            if j < d.len() {
                assert(d[j] == t[j]);
            }
        }
        k
    }
}

/// A larger budget keeps what a smaller one took, ahead of what it adds:
/// where the smaller budget takes a leading run of the files, the larger
/// one takes those files too, and every file that only the larger one
/// takes comes after all of them.
pub proof fn lemma_budget_monotone(sizes: Seq<u64>, b1: usize, b2: usize, chars_per_token: usize)
    requires
        b1 <= b2,
        leading_run(greedy(sizes, b1, chars_per_token).0),
    ensures
        forall|i: int|
            0 <= i < sizes.len() && #[trigger] greedy(sizes, b1, chars_per_token).0[i] ==> greedy(
                sizes,
                b2,
                chars_per_token,
            ).0[i],
        forall|i: int, j: int|
            0 <= i < j < sizes.len() && #[trigger] greedy(sizes, b2, chars_per_token).0[i] && !greedy(
                sizes,
                b1,
                chars_per_token,
            ).0[i] ==> !#[trigger] greedy(sizes, b1, chars_per_token).0[j],
{
    let t1 = greedy(sizes, b1, chars_per_token).0;
    let t2 = greedy(sizes, b2, chars_per_token).0;
    lemma_greedy_len(sizes, b1, chars_per_token);
    lemma_greedy_len(sizes, b2, chars_per_token);
    let k = lemma_leading_run_end(t1);
    let p = sizes.subrange(0, k);
    lemma_greedy_prefix(sizes, b1, chars_per_token, k);
    lemma_greedy_prefix(sizes, b2, chars_per_token, k);
    assert forall|i: int| 0 <= i < p.len() implies #[trigger] greedy(p, b1, chars_per_token).0[i] by {
        assert(t1.subrange(0, k)[i] == t1[i]);
    }
    lemma_all_taken_same(p, b1, b2, chars_per_token);
    assert forall|i: int| 0 <= i < sizes.len() && #[trigger] t1[i] implies t2[i] by {
        assert(i < k);
        assert(t2.subrange(0, k)[i] == t2[i]);
        assert(t1.subrange(0, k)[i] == t1[i]);
    }
}

} // verus!
