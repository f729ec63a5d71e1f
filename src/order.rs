//! Sorting records by a text key.
use vstd::prelude::*;
use vstd::multiset::Multiset;
use crate::text::{compare_text, compare_paths, lex_lt, lemma_lex_order};

verus! {

/// A record ordered by one of its text fields.
pub trait Keyed: Sized {
    /// The field the record is ordered by.
    spec fn key(&self) -> Seq<char>;

    /// The key field itself.
    fn key_text(&self) -> (r: &str)
        ensures
            r@ == self.key(),
    ;
}

/// Keys never decrease along `s`.
pub open spec fn keys_sorted<T: Keyed>(s: Seq<T>, as_path: bool) -> bool {
    forall|i: int, j: int| 0 <= i < j < s.len() ==> !lex_lt(#[trigger] s[j].key(), #[trigger] s[i].key(), as_path)
}

/// Keys strictly increase along `s`: no key appears twice.
pub open spec fn keys_strictly_sorted<T: Keyed>(s: Seq<T>, as_path: bool) -> bool {
    forall|i: int, j: int| 0 <= i < j < s.len() ==> lex_lt(#[trigger] s[i].key(), #[trigger] s[j].key(), as_path)
}

/// Whether the key of `a` sorts strictly before that of `b`.
fn key_before<T: Keyed>(a: &T, b: &T, as_path: bool) -> (r: bool)
    ensures
        r == lex_lt(a.key(), b.key(), as_path),
{
    if as_path {
        compare_paths(a.key_text(), b.key_text()) < 0
    } else {
        compare_text(a.key_text(), b.key_text()) < 0
    }
}

/// Sorts records by key.
pub fn sort_by_key<T: Keyed>(v: Vec<T>, as_path: bool) -> (r: Vec<T>)
    ensures
        keys_sorted(r@, as_path),
        r@.to_multiset() == v@.to_multiset(),
{
    broadcast use vstd::seq_lib::group_to_multiset_ensures;

    let mut src = v;
    let mut out: Vec<T> = Vec::new();
    while src.len() > 0
        invariant
            keys_sorted(out@, as_path),
            out@.to_multiset().add(src@.to_multiset()) == v@.to_multiset(),
        decreases src@.len(),
    {
        let ghost before_src = src@;
        let x = src.pop().unwrap();
        proof {
            assert(before_src =~= src@.push(x));
            vstd::seq_lib::to_multiset_build(src@, x);
        }
        // Insert before the first record whose key is not smaller than x's.
        let mut j: usize = 0;
        while j < out.len() && key_before(&out[j], &x, as_path)
            invariant
                j <= out@.len(),
                forall|k: int| 0 <= k < j ==> lex_lt(#[trigger] out@[k].key(), x.key(), as_path),
            decreases out@.len() - j,
        {
            j += 1;
        }
        let ghost p = out@;
        out.insert(j, x);
        proof {
            vstd::seq_lib::to_multiset_insert(p, j as int, x);
            let o = out@;
            assert(o =~= p.insert(j as int, x));
            assert forall|a: int, b: int| 0 <= a < b < o.len() implies !lex_lt(#[trigger] o[b].key(), #[trigger] o[a].key(), as_path) by {
                if b < j {
                    assert(o[a] == p[a] && o[b] == p[b]);
                } else if a > j {
                    assert(o[a] == p[a - 1] && o[b] == p[b - 1]);
                } else if a == j {
                    assert(o[a] == x && o[b] == p[b - 1]);
                    assert(!lex_lt(p[j as int].key(), x.key(), as_path));
                    lemma_lex_order(p[b - 1].key(), x.key(), p[j as int].key(), as_path);
                    lemma_lex_order(x.key(), p[j as int].key(), x.key(), as_path);
                } else if b == j {
                    assert(o[a] == p[a] && o[b] == x);
                    lemma_lex_order(p[a].key(), x.key(), p[a].key(), as_path);
                } else {
                    assert(o[a] == p[a] && o[b] == p[b - 1]);
                }
            }
            assert(out@.to_multiset().add(src@.to_multiset()) =~= v@.to_multiset());
        }
    }
    proof {
        assert(src@.to_multiset() =~= Multiset::empty());
        assert(out@.to_multiset() =~= v@.to_multiset());
    }
    out
}


/// Sequences with the same multiset have the same members.
pub proof fn lemma_same_members<T>(a: Seq<T>, b: Seq<T>, x: T)
    requires
        a.to_multiset() == b.to_multiset(),
    ensures
        a.contains(x) <==> b.contains(x),
{
    vstd::seq_lib::to_multiset_contains(a, x);
    vstd::seq_lib::to_multiset_contains(b, x);
}

/// Some record of `s` has key `k`.
pub open spec fn key_present<T: Keyed>(s: Seq<T>, k: Seq<char>) -> bool {
    exists|j: int| 0 <= j < s.len() && #[trigger] s[j].key() == k
}

/// Keeps the last record of each run of equal keys in a sorted vector.
pub fn dedup_by_key<T: Keyed>(v: Vec<T>, as_path: bool) -> (r: Vec<T>)
    requires
        keys_sorted(v@, as_path),
    ensures
        keys_strictly_sorted(r@, as_path),
        forall|i: int| 0 <= i < r@.len() ==> v@.contains(#[trigger] r@[i]),
        forall|i: int| 0 <= i < v@.len() ==> key_present(r@, #[trigger] v@[i].key()),
{
    let mut src = v;
    let mut out: Vec<T> = Vec::new();
    while src.len() > 0
        invariant
            src@.len() <= v@.len(),
            src@ == v@.subrange(0, src@.len() as int),
            keys_sorted(v@, as_path),
            keys_strictly_sorted(out@, as_path),
            forall|i: int| 0 <= i < out@.len() ==> v@.contains(#[trigger] out@[i]),
            forall|i: int| src@.len() <= i < v@.len() ==> key_present(out@, #[trigger] v@[i].key()),
            out@.len() > 0 ==> exists|m: int| src@.len() <= m < v@.len() && v@[m] == out@[0],
        decreases src@.len(),
    {
        let ghost n = src@.len() - 1;
        let x = src.pop().unwrap();
        proof {
            assert(x == v@[n]);
            assert(src@ =~= v@.subrange(0, n));
        }
        if out.len() > 0 && same_key(&x, &out[0]) {
            proof {
                assert(out@[0].key() == v@[n].key());
                assert(key_present(out@, v@[n].key()));
            }
        } else {
            let ghost p = out@;
            out.insert(0, x);
            proof {
                assert(out@ =~= p.insert(0, x));
                if p.len() > 0 {
                    let m = choose|m: int| n + 1 <= m < v@.len() && v@[m] == p[0];
                    assert(!lex_lt(v@[m].key(), v@[n].key(), as_path));
                    lemma_lex_order(x.key(), p[0].key(), x.key(), as_path);
                }
                assert forall|a: int, b: int| 0 <= a < b < out@.len() implies lex_lt(#[trigger] out@[a].key(), #[trigger] out@[b].key(), as_path) by {
                    if a == 0 {
                        if b > 1 {
                            lemma_lex_order(x.key(), p[0].key(), p[b - 1].key(), as_path);
                        }
                    } else {
                        assert(out@[a] == p[a - 1] && out@[b] == p[b - 1]);
                    }
                }
                assert forall|i: int| 0 <= i < out@.len() implies v@.contains(#[trigger] out@[i]) by {
                    if i == 0 {
                        assert(v@[n] == out@[0]);
                    } else {
                        assert(out@[i] == p[i - 1]);
                    }
                }
                assert forall|i: int| n <= i < v@.len() implies key_present(out@, #[trigger] v@[i].key()) by {
                    if i == n {
                        assert(out@[0].key() == v@[i].key());
                    } else {
                        assert(key_present(p, v@[i].key()));
                        let j = choose|j: int| 0 <= j < p.len() && #[trigger] p[j].key() == v@[i].key();
                        assert(out@[j + 1] == p[j]);
                    }
                }
                assert(v@[n] == out@[0]);
            }
        }
    }
    out
}

/// Whether two records have the same key.
fn same_key<T: Keyed>(a: &T, b: &T) -> (r: bool)
    ensures
        r == (a.key() == b.key()),
{
    crate::text::same_text(a.key_text(), b.key_text())
}

} // verus!
