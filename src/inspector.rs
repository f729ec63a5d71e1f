//! Symbol and import extraction for one source file.
use vstd::prelude::*;
use vstd::multiset::Multiset;
use crate::order::lemma_same_members;
use vstd::string::StringExecFns;
use crate::paths::{extension, extension_chars, forward_slashes, lower_equals, lowered, normalize_path_for_output};
use crate::syntax::{
    capture_view, captures_of, compile_query, match_views, parse_source, query_captures, query_compiles, Capture,
    CaptureView, ParsedSource,
};
use crate::text::{
    chars_of, compare_text, copy_range, is_whitespace, is_ws, lemma_lex_order, string_of, text_lt, trim,
    trim_chars, trim_str,
};

verus! {

/// Longest signature preview, in characters.
pub const SIGNATURE_CAP: usize = 240;

/// The characters of `s` before its first `{` or line break.
pub open spec fn head_line(s: Seq<char>) -> Seq<char>
    decreases s.len(),
{
    if s.len() == 0 || s[0] == '{' || s[0] == '\n' {
        Seq::empty()
    } else {
        seq![s[0]] + head_line(s.drop_first())
    }
}

/// `s` with every run of white space replaced by one space.
pub open spec fn collapse_ws(s: Seq<char>) -> Seq<char>
    decreases s.len(),
{
    if s.len() == 0 {
        Seq::empty()
    } else if !is_ws(s.last()) {
        collapse_ws(s.drop_last()).push(s.last())
    } else if s.len() >= 2 && is_ws(s[s.len() - 2]) {
        collapse_ws(s.drop_last())
    } else {
        collapse_ws(s.drop_last()).push(' ')
    }
}

/// At most the first `n` characters of `s`.
pub open spec fn take(s: Seq<char>, n: nat) -> Seq<char> {
    if s.len() <= n {
        s
    } else {
        s.subrange(0, n as int)
    }
}

/// `s` without trailing `{` characters.
pub open spec fn trim_end_braces(s: Seq<char>) -> Seq<char>
    decreases s.len(),
{
    if s.len() > 0 && s.last() == '{' {
        trim_end_braces(s.drop_last())
    } else {
        s
    }
}

/// One-line preview of a definition: its text up to the first `{` or line
/// break, white space collapsed, capped, trimmed of white space and of
/// trailing braces.
pub open spec fn signature_of(def: Seq<char>) -> Seq<char> {
    trim(trim_end_braces(trim(take(collapse_ws(head_line(def)), SIGNATURE_CAP as nat))))
}

proof fn lemma_head_line_prefix(s: Seq<char>, i: int)
    requires
        0 <= i <= s.len(),
        forall|k: int| 0 <= k < i ==> s[k] != '{' && s[k] != '\n',
    ensures
        i == s.len() || s[i] == '{' || s[i] == '\n' ==> head_line(s) == s.subrange(0, i),
    decreases i,
{
    if i > 0 {
        lemma_head_line_prefix(s.drop_first(), i - 1);
        assert(s.subrange(0, i) =~= seq![s[0]] + s.drop_first().subrange(0, i - 1));
    } else {
        assert(s.subrange(0, 0) =~= Seq::<char>::empty());
    }
}

proof fn lemma_collapse_prefix(s: Seq<char>, i: int)
    requires
        0 <= i <= s.len(),
    ensures
        collapse_ws(s.subrange(0, i)).len() <= collapse_ws(s).len(),
        collapse_ws(s).subrange(0, collapse_ws(s.subrange(0, i)).len() as int) == collapse_ws(
            s.subrange(0, i),
        ),
    decreases s.len(),
{
    if i == s.len() {
        assert(s.subrange(0, i) =~= s);
        assert(collapse_ws(s).subrange(0, collapse_ws(s).len() as int) =~= collapse_ws(s));
    } else {
        let d = s.drop_last();
        assert(d.subrange(0, i) =~= s.subrange(0, i));
        lemma_collapse_prefix(d, i);
        let a = collapse_ws(s.subrange(0, i));
        let b = collapse_ws(d);
        let c = collapse_ws(s);
        assert(c.subrange(0, b.len() as int) =~= b);
        assert(c.subrange(0, a.len() as int) =~= b.subrange(0, a.len() as int));
    }
}

/// Removes trailing `{` characters.
fn trim_end_braces_chars(cs: &[char]) -> (r: Vec<char>)
    ensures
        r@ == trim_end_braces(cs@),
{
    let mut j: usize = cs.len();
    proof {
        assert(cs@.subrange(0, j as int) =~= cs@);
    }
    while j > 0 && cs[j - 1] == '{'
        invariant
            j <= cs@.len(),
            trim_end_braces(cs@) == trim_end_braces(cs@.subrange(0, j as int)),
        decreases j,
    {
        proof {
            assert(cs@.subrange(0, j as int).drop_last() =~= cs@.subrange(0, j - 1));
        }
        j -= 1;
    }
    copy_range(cs, 0, j)
}

/// One-line, human-readable preview of a definition's text.
pub fn first_line_signature(def_text: &str) -> (r: String)
    ensures
        r@ == signature_of(def_text@),
{
    let cs = chars_of(def_text);
    let mut end: usize = 0;
    while end < cs.len() && cs[end] != '{' && cs[end] != '\n'
        invariant
            end <= cs@.len(),
            forall|k: int| 0 <= k < end ==> cs@[k] != '{' && cs@[k] != '\n',
        decreases cs@.len() - end,
    {
        end += 1;
    }
    proof {
        lemma_head_line_prefix(cs@, end as int);
    }
    let ghost h = cs@.subrange(0, end as int);
    let mut out: Vec<char> = Vec::new();
    let mut prev_ws = false;
    let mut i: usize = 0;
    while i < end && out.len() < SIGNATURE_CAP
        invariant
            i <= end <= cs@.len(),
            h == cs@.subrange(0, end as int),
            out@ == collapse_ws(h.subrange(0, i as int)),
            out@.len() <= SIGNATURE_CAP,
            prev_ws == (i > 0 && is_ws(h[i - 1])),
        decreases end - i,
    {
        let c = cs[i];
        let ws = is_whitespace(c);
        proof {
            let p = h.subrange(0, i + 1);
            assert(p.drop_last() =~= h.subrange(0, i as int));
            assert(p.last() == c);
            if i > 0 {
                assert(p[p.len() - 2] == h[i - 1]);
            }
        }
        if ws {
            if !prev_ws {
                out.push(' ');
            }
        } else {
            out.push(c);
        }
        prev_ws = ws;
        i += 1;
    }
    proof {
        lemma_collapse_prefix(h, i as int);
        if i == end {
            assert(h.subrange(0, i as int) =~= h);
        }
        assert(head_line(def_text@) == h);
        let full = collapse_ws(h);
        if full.len() > SIGNATURE_CAP {
            assert(out@.len() == SIGNATURE_CAP);
            assert(take(full, SIGNATURE_CAP as nat) == out@);
        } else {
            assert(out@ =~= full);
        }
    }
    let t = trim_chars(out.as_slice());
    let u = trim_end_braces_chars(t.as_slice());
    let v = trim_chars(u.as_slice());
    string_of(v.as_slice())
}

/// `s` trimmed, then without one pair of matching surrounding quotes
/// (`'`, `"` or a backtick), if it has them.
pub open spec fn unquoted(s: Seq<char>) -> Seq<char> {
    let t = trim(s);
    if t.len() >= 2 && t[0] == t.last() && (t[0] == '\'' || t[0] == '"' || t[0] == '`') {
        t.subrange(1, t.len() - 1)
    } else {
        t
    }
}

/// Strips the quotes around a string literal's text.
pub fn strip_string_quotes(s: &str) -> (r: String)
    ensures
        r@ == unquoted(s@),
{
    let cs = chars_of(s);
    let t = trim_chars(cs.as_slice());
    let n = t.len();
    if n >= 2 && t[0] == t[n - 1] && (t[0] == '\'' || t[0] == '"' || t[0] == '`') {
        let inner = copy_range(t.as_slice(), 1, n - 1);
        string_of(inner.as_slice())
    } else {
        string_of(t.as_slice())
    }
}


/// A named, positioned declaration found in a source file.
#[derive(Debug, Clone)]
pub struct Symbol {
    pub name: String,
    pub kind: String,
    /// First line of the definition, counted from 0.
    pub line: u32,
    /// Last line of the definition, counted from 0.
    pub line_end: u32,
    /// One-line preview, for functions and methods.
    pub signature: Option<String>,
}

/// A `Symbol` as plain values.
pub struct SymbolView {
    pub name: Seq<char>,
    pub kind: Seq<char>,
    pub line: u32,
    pub line_end: u32,
    pub signature: Option<Seq<char>>,
}

impl View for Symbol {
    type V = SymbolView;

    open spec fn view(&self) -> SymbolView {
        SymbolView {
            name: self.name@,
            kind: self.kind@,
            line: self.line,
            line_end: self.line_end,
            signature: match self.signature {
                Some(s) => Some(s@),
                None => None,
            },
        }
    }
}

/// What extraction found in one file.
#[derive(Debug, Clone)]
pub struct FileSymbols {
    pub file: String,
    pub imports: Vec<String>,
    pub exports: Vec<String>,
    pub symbols: Vec<Symbol>,
}

/// The views of a sequence of symbols.
pub open spec fn symbol_views(s: Seq<Symbol>) -> Seq<SymbolView> {
    s.map_values(|x: Symbol| x@)
}

/// The views of a sequence of strings.
pub open spec fn text_views(s: Seq<String>) -> Seq<Seq<char>> {
    s.map_values(|x: String| x@)
}

/// Strictly before in the published order: by start line, then by name.
pub open spec fn key_lt(a: SymbolView, b: SymbolView) -> bool {
    a.line < b.line || (a.line == b.line && text_lt(a.name, b.name))
}

/// Strict order on optional text: absent first.
pub open spec fn opt_text_lt(a: Option<Seq<char>>, b: Option<Seq<char>>) -> bool {
    match (a, b) {
        (None, Some(_)) => true,
        (Some(x), Some(y)) => text_lt(x, y),
        _ => false,
    }
}

/// Strict total order on symbols that refines the published order: ties on
/// start line and name are broken by kind, end line and signature.
pub open spec fn symbol_lt(a: SymbolView, b: SymbolView) -> bool {
    if a.line != b.line {
        a.line < b.line
    } else if a.name != b.name {
        text_lt(a.name, b.name)
    } else if a.kind != b.kind {
        text_lt(a.kind, b.kind)
    } else if a.line_end != b.line_end {
        a.line_end < b.line_end
    } else {
        opt_text_lt(a.signature, b.signature)
    }
}

pub open spec fn symbol_le(a: SymbolView, b: SymbolView) -> bool {
    a == b || symbol_lt(a, b)
}

/// Ordered by start line, then name.
pub open spec fn ordered_by_key(s: Seq<SymbolView>) -> bool {
    forall|i: int, j: int| 0 <= i < j < s.len() ==> !key_lt(#[trigger] s[j], #[trigger] s[i])
}

/// Ordered by `symbol_le`.
pub open spec fn ordered(s: Seq<SymbolView>) -> bool {
    forall|i: int, j: int| 0 <= i < j < s.len() ==> symbol_le(#[trigger] s[i], #[trigger] s[j])
}

/// Strictly increasing as text, hence free of duplicates.
pub open spec fn strictly_sorted(s: Seq<Seq<char>>) -> bool {
    forall|i: int, j: int| 0 <= i < j < s.len() ==> text_lt(#[trigger] s[i], #[trigger] s[j])
}

/// `symbol_lt` is a strict total order.
pub proof fn lemma_symbol_order(a: SymbolView, b: SymbolView, c: SymbolView)
    ensures
        !symbol_lt(a, a),
        symbol_lt(a, b) && symbol_lt(b, c) ==> symbol_lt(a, c),
        a == b || symbol_lt(a, b) || symbol_lt(b, a),
        symbol_lt(a, b) ==> !key_lt(b, a),
{
    lemma_lex_order(a.name, b.name, c.name, false);
    lemma_lex_order(a.name, b.name, a.name, false);
    lemma_lex_order(a.kind, b.kind, c.kind, false);
    lemma_lex_order(a.kind, b.kind, a.kind, false);
    match (a.signature, b.signature, c.signature) {
        (Some(x), Some(y), Some(z)) => {
            lemma_lex_order(x, y, z, false);
            lemma_lex_order(x, y, x, false);
        },
        (Some(x), Some(y), None) => lemma_lex_order(x, y, x, false),
        (Some(x), None, _) => lemma_lex_order(x, x, x, false),
        _ => {},
    }
}

proof fn lemma_ordered_refines(s: Seq<SymbolView>)
    requires
        ordered(s),
    ensures
        ordered_by_key(s),
{
    assert forall|i: int, j: int| 0 <= i < j < s.len() implies !key_lt(#[trigger] s[j], #[trigger] s[i]) by {
        lemma_symbol_order(s[i], s[j], s[j]);
        lemma_lex_order(s[i].name, s[i].name, s[i].name, false);
    }
}

/// Whether `a` comes strictly before `b` in `symbol_lt`.
pub fn symbol_before(a: &Symbol, b: &Symbol) -> (r: bool)
    ensures
        r == symbol_lt(a@, b@),
{
    if a.line != b.line {
        return a.line < b.line;
    }
    let c = compare_text(&a.name, &b.name);
    if c != 0 {
        return c < 0;
    }
    let c = compare_text(&a.kind, &b.kind);
    if c != 0 {
        return c < 0;
    }
    if a.line_end != b.line_end {
        return a.line_end < b.line_end;
    }
    match (&a.signature, &b.signature) {
        (None, Some(_)) => true,
        (Some(x), Some(y)) => compare_text(x, y) < 0,
        _ => false,
    }
}

/// Sorts symbols by start line and name, ties broken by `symbol_lt`.
pub fn sort_symbols(v: Vec<Symbol>) -> (r: Vec<Symbol>)
    ensures
        ordered(symbol_views(r@)),
        ordered_by_key(symbol_views(r@)),
        symbol_views(r@).to_multiset() == symbol_views(v@).to_multiset(),
{
    broadcast use vstd::seq_lib::group_to_multiset_ensures;
    let mut src = v;
    let mut out: Vec<Symbol> = Vec::new();
    while src.len() > 0
        invariant
            ordered(symbol_views(out@)),
            symbol_views(out@).to_multiset().add(symbol_views(src@).to_multiset())
                == symbol_views(v@).to_multiset(),
        decreases src@.len(),
    {
        let ghost before_src = src@;
        let x = src.pop().unwrap();
        proof {
            assert(before_src =~= src@.push(x));
            assert(symbol_views(before_src) =~= symbol_views(src@).push(x@));
        }
        let mut j: usize = 0;
        while j < out.len() && !symbol_before(&x, &out[j])
            invariant
                j <= out@.len(),
                forall|k: int| 0 <= k < j ==> symbol_le(#[trigger] out@[k]@, x@),
            decreases out@.len() - j,
        {
            proof {
                lemma_symbol_order(x@, out@[j as int]@, x@);
            }
            j += 1;
        }
        let ghost before_out = out@;
        out.insert(j, x);
        proof {
            assert(out@ =~= before_out.insert(j as int, x));
            assert(symbol_views(out@) =~= symbol_views(before_out).insert(j as int, x@));
            vstd::seq_lib::to_multiset_insert(symbol_views(before_out), j as int, x@);
            let o = symbol_views(out@);
            let p = symbol_views(before_out);
            assert forall|a: int, b: int| 0 <= a < b < o.len() implies symbol_le(#[trigger] o[a], #[trigger] o[b]) by {
                if b < j {
                    assert(o[a] == p[a] && o[b] == p[b]);
                } else if a > j {
                    assert(o[a] == p[a - 1] && o[b] == p[b - 1]);
                } else if a == j {
                    assert(o[a] == x@ && o[b] == p[b - 1]);
                    assert(symbol_lt(x@, p[j as int]));
                    assert(symbol_le(p[j as int], p[b - 1]));
                    lemma_symbol_order(x@, p[j as int], p[b - 1]);
                } else if b == j {
                    assert(o[a] == p[a] && o[b] == x@);
                } else {
                    assert(o[a] == p[a] && o[b] == p[b - 1]);
                }
            }
            vstd::seq_lib::to_multiset_build(symbol_views(src@), x@);
            assert(symbol_views(out@).to_multiset().add(symbol_views(src@).to_multiset())
                =~= symbol_views(v@).to_multiset());
        }
    }
    proof {
        assert(symbol_views(src@).to_multiset() =~= Multiset::empty());
        assert(symbol_views(out@).to_multiset() =~= symbol_views(v@).to_multiset());
        lemma_ordered_refines(symbol_views(out@));
    }
    out
}


/// Sorts strings as text and drops duplicates.
pub fn dedup_sorted(v: Vec<String>) -> (r: Vec<String>)
    ensures
        strictly_sorted(text_views(r@)),
        forall|t: Seq<char>| text_views(r@).contains(t) <==> text_views(v@).contains(t),
{
    let mut out: Vec<String> = Vec::new();
    let mut i: usize = 0;
    while i < v.len()
        invariant
            i <= v@.len(),
            strictly_sorted(text_views(out@)),
            forall|t: Seq<char>|
                text_views(out@).contains(t) <==> text_views(v@.subrange(0, i as int)).contains(t),
        decreases v@.len() - i,
    {
        let x = v[i].clone();
        let ghost o = text_views(out@);
        let mut j: usize = 0;
        while j < out.len() && compare_text(&out[j], &x) < 0
            invariant
                j <= out@.len(),
                o == text_views(out@),
                forall|k: int| 0 <= k < j ==> text_lt(#[trigger] o[k], x@),
            decreases out@.len() - j,
        {
            j += 1;
        }
        proof {
            let w = text_views(v@.subrange(0, i as int));
            let ww = text_views(v@.subrange(0, i + 1));
            assert(ww =~= w.push(x@));
            assert forall|t: Seq<char>| ww.contains(t) <==> (w.contains(t) || t == x@) by {
                if ww.contains(t) {
                    let k = choose|k: int| 0 <= k < ww.len() && ww[k] == t;
                    if k < w.len() {
                        assert(w[k] == t);
                    }
                }
                if w.contains(t) {
                    let k = choose|k: int| 0 <= k < w.len() && w[k] == t;
                    assert(ww[k] == t);
                }
                if t == x@ {
                    assert(ww[w.len() as int] == t);
                }
            }
        }
        if j < out.len() && compare_text(&out[j], &x) == 0 {
            proof {
                assert(o[j as int] == x@);
                assert forall|t: Seq<char>|
                    text_views(out@).contains(t) <==> text_views(v@.subrange(0, i + 1)).contains(t) by {
                    if t == x@ {
                        assert(o[j as int] == t);
                    }
                }
            }
        } else {
            let ghost before = out@;
            out.insert(j, x);
            proof {
                assert(out@ =~= before.insert(j as int, x));
                let n = text_views(out@);
                assert(n =~= o.insert(j as int, x@));
                if j < o.len() {
                    lemma_lex_order(x@, o[j as int], x@, false);
                }
                assert forall|a: int, b: int| 0 <= a < b < n.len() implies text_lt(#[trigger] n[a], #[trigger] n[b]) by {
                    if b < j {
                        assert(n[a] == o[a] && n[b] == o[b]);
                    } else if a > j {
                        assert(n[a] == o[a - 1] && n[b] == o[b - 1]);
                    } else if a == j {
                        assert(n[a] == x@ && n[b] == o[b - 1]);
                        if b - 1 > j {
                            lemma_lex_order(x@, o[j as int], o[b - 1], false);
                        }
                    } else if b == j {
                        assert(n[a] == o[a] && n[b] == x@);
                    } else {
                        assert(n[a] == o[a] && n[b] == o[b - 1]);
                    }
                }
                assert forall|t: Seq<char>|
                    n.contains(t) <==> text_views(v@.subrange(0, i + 1)).contains(t) by {
                    if n.contains(t) {
                        let k = choose|k: int| 0 <= k < n.len() && n[k] == t;
                        if k < j {
                            assert(o[k] == t);
                        } else if k > j {
                            assert(o[k - 1] == t);
                        }
                    }
                    if o.contains(t) {
                        let k = choose|k: int| 0 <= k < o.len() && o[k] == t;
                        if k < j {
                            assert(n[k] == t);
                        } else {
                            assert(n[k + 1] == t);
                        }
                    }
                    if t == x@ {
                        assert(n[j as int] == t);
                    }
                }
            }
        }
        i += 1;
    }
    proof {
        assert(v@.subrange(0, v@.len() as int) =~= v@);
    }
    out
}


/// The last capture of `m` with the given name.
pub open spec fn last_capture(m: Seq<CaptureView>, role: Seq<char>) -> Option<CaptureView>
    decreases m.len(),
{
    if m.len() == 0 {
        None
    } else if m.last().0 == role {
        Some(m.last())
    } else {
        last_capture(m.drop_last(), role)
    }
}

/// The symbol a match stands for: named by its `name` capture, spanning its
/// `def` capture (or the name where there is none); none where the name is
/// blank.
pub open spec fn symbol_of_match(m: Seq<CaptureView>, kind: Seq<char>, with_signature: bool) -> Option<
    SymbolView,
> {
    match last_capture(m, "name"@) {
        None => None,
        Some(n) => {
            let d = match last_capture(m, "def"@) {
                Some(d) => d,
                None => n,
            };
            if trim(n.1).len() == 0 {
                None
            } else {
                Some(
                    SymbolView {
                        name: trim(n.1),
                        kind,
                        line: d.2 as u32,
                        line_end: d.3 as u32,
                        signature: if with_signature {
                            Some(signature_of(d.1))
                        } else {
                            None
                        },
                    },
                )
            }
        },
    }
}

/// The symbols that a list of matches stands for, in match order.
pub open spec fn symbols_of_matches(ms: Seq<Seq<CaptureView>>, kind: Seq<char>, with_signature: bool) -> Seq<
    SymbolView,
>
    decreases ms.len(),
{
    if ms.len() == 0 {
        Seq::empty()
    } else {
        let prev = symbols_of_matches(ms.drop_last(), kind, with_signature);
        match symbol_of_match(ms.last(), kind, with_signature) {
            Some(s) => prev.push(s),
            None => prev,
        }
    }
}

/// The trimmed, non-blank texts of the captures of `m` with the given name.
pub open spec fn texts_of_match(m: Seq<CaptureView>, role: Seq<char>) -> Seq<Seq<char>>
    decreases m.len(),
{
    if m.len() == 0 {
        Seq::empty()
    } else {
        let prev = texts_of_match(m.drop_last(), role);
        if m.last().0 == role && trim(m.last().1).len() > 0 {
            prev.push(trim(m.last().1))
        } else {
            prev
        }
    }
}

/// The texts of the captures with the given name, over all matches.
pub open spec fn texts_of_matches(ms: Seq<Seq<CaptureView>>, role: Seq<char>) -> Seq<Seq<char>>
    decreases ms.len(),
{
    if ms.len() == 0 {
        Seq::empty()
    } else {
        texts_of_matches(ms.drop_last(), role) + texts_of_match(ms.last(), role)
    }
}

/// The views of the captures of one match.
pub open spec fn capture_views(m: Seq<Capture>) -> Seq<CaptureView> {
    m.map_values(|c: Capture| capture_view(c))
}

/// Index of the last capture of `m` with the given name.
fn find_capture(m: &Vec<Capture>, role: &str) -> (r: Option<usize>)
    ensures
        match r {
            Some(i) => i < m@.len() && last_capture(capture_views(m@), role@) == Some(capture_view(m@[i as int])),
            None => last_capture(capture_views(m@), role@) is None,
        },
{
    let ghost mv = capture_views(m@);
    let mut k = m.len();
    proof {
        assert(mv.subrange(0, k as int) =~= mv);
    }
    while k > 0
        invariant
            k <= m@.len(),
            mv == capture_views(m@),
            last_capture(mv, role@) == last_capture(mv.subrange(0, k as int), role@),
        decreases k,
    {
        proof {
            assert(mv.subrange(0, k as int).last() == capture_view(m@[k - 1]));
        }
        if crate::text::same_text(&m[k - 1].name, role) {
            return Some(k - 1);
        }
        proof {
            assert(mv.subrange(0, k as int).drop_last() =~= mv.subrange(0, k - 1));
        }
        k -= 1;
    }
    None
}

/// The symbols that query matches stand for, in match order.
pub fn symbols_from_matches(matches: &Vec<Vec<Capture>>, kind: &str, with_signature: bool) -> (r: Vec<
    Symbol,
>)
    ensures
        symbol_views(r@) == symbols_of_matches(match_views(matches@), kind@, with_signature),
{
    let mut out: Vec<Symbol> = Vec::new();
    let mut i: usize = 0;
    while i < matches.len()
        invariant
            i <= matches@.len(),
            symbol_views(out@) == symbols_of_matches(
                match_views(matches@.subrange(0, i as int)),
                kind@,
                with_signature,
            ),
        decreases matches@.len() - i,
    {
        let m = &matches[i];
        let ghost ms = match_views(matches@.subrange(0, i + 1));
        proof {
            assert(ms.drop_last() =~= match_views(matches@.subrange(0, i as int)));
            assert(ms.last() == capture_views(m@));
        }
        if let Some(ni) = find_capture(m, "name") {
            let di = match find_capture(m, "def") {
                Some(d) => d,
                None => ni,
            };
            let name = trim_str(&m[ni].text);
            if !name.as_str().is_empty() {
                let d = &m[di];
                let signature = if with_signature {
                    Some(first_line_signature(&d.text))
                } else {
                    None
                };
                let sym = Symbol {
                    name,
                    kind: String::from_str(kind),
                    line: #[verifier::truncate] (d.start_row as u32),
                    line_end: #[verifier::truncate] (d.end_row as u32),
                    signature,
                };
                let ghost before = out@;
                out.push(sym);
                proof {
                    assert(symbol_views(out@) =~= symbol_views(before).push(sym@));
                }
            } else {
                proof {
                    assert(name@.len() == 0);
                }
            }
        }
        i += 1;
    }
    proof {
        assert(matches@.subrange(0, i as int) =~= matches@);
    }
    out
}

/// The texts of the captures with the given name, over all matches; with
/// `unquote`, each without its surrounding quotes.
pub fn texts_from_matches(matches: &Vec<Vec<Capture>>, role: &str, unquote: bool) -> (r: Vec<String>)
    ensures
        text_views(r@) == (if unquote {
            texts_of_matches(match_views(matches@), role@).map_values(|t: Seq<char>| unquoted(t))
        } else {
            texts_of_matches(match_views(matches@), role@)
        }),
{
    let mut out: Vec<String> = Vec::new();
    let mut i: usize = 0;
    while i < matches.len()
        invariant
            i <= matches@.len(),
            ({
                let t = texts_of_matches(match_views(matches@.subrange(0, i as int)), role@);
                text_views(out@) == if unquote {
                    t.map_values(|x: Seq<char>| unquoted(x))
                } else {
                    t
                }
            }),
        decreases matches@.len() - i,
    {
        let m = &matches[i];
        let ghost prev = texts_of_matches(match_views(matches@.subrange(0, i as int)), role@);
        let ghost mv = capture_views(m@);
        proof {
            let ms = match_views(matches@.subrange(0, i + 1));
            assert(ms.drop_last() =~= match_views(matches@.subrange(0, i as int)));
            assert(ms.last() == mv);
        }
        let mut j: usize = 0;
        while j < m.len()
            invariant
                i < matches@.len(),
                m == &matches@[i as int],
                mv == capture_views(m@),
                j <= m@.len(),
                ({
                    let t = prev + texts_of_match(mv.subrange(0, j as int), role@);
                    text_views(out@) == if unquote {
                        t.map_values(|x: Seq<char>| unquoted(x))
                    } else {
                        t
                    }
                }),
            decreases m@.len() - j,
        {
            let c = &m[j];
            proof {
                assert(mv.subrange(0, j + 1).drop_last() =~= mv.subrange(0, j as int));
                assert(mv.subrange(0, j + 1).last() == capture_view(*c));
            }
            if crate::text::same_text(&c.name, role) {
                let t = trim_str(&c.text);
                if !t.as_str().is_empty() {
                    let ghost before = out@;
                    let ghost tv = t@;
                    let item = if unquote {
                        strip_string_quotes(&t)
                    } else {
                        t
                    };
                    out.push(item);
                    proof {
                        assert(trim(tv) == tv) by {
                            lemma_trim_idempotent(c.text@);
                        }
                        let told = prev + texts_of_match(mv.subrange(0, j as int), role@);
                        let tnew = prev + texts_of_match(mv.subrange(0, j + 1), role@);
                        assert(tnew =~= told.push(tv));
                        if unquote {
                            assert(tnew.map_values(|x: Seq<char>| unquoted(x)) =~= told.map_values(
                                |x: Seq<char>| unquoted(x),
                            ).push(unquoted(tv)));
                        }
                        assert(text_views(out@) =~= text_views(before).push(item@));
                    }
                } else {
                    proof {
                        assert(t@.len() == 0);
                    }
                }
            }
            j += 1;
        }
        proof {
            assert(mv.subrange(0, j as int) =~= mv);
        }
        i += 1;
    }
    proof {
        assert(matches@.subrange(0, i as int) =~= matches@);
    }
    out
}

proof fn lemma_trim_start_idempotent(s: Seq<char>)
    ensures
        crate::text::trim_start(crate::text::trim_start(s)) == crate::text::trim_start(s),
        crate::text::trim_start(s).len() > 0 ==> !is_ws(crate::text::trim_start(s)[0]),
    decreases s.len(),
{
    if s.len() > 0 && is_ws(s[0]) {
        lemma_trim_start_idempotent(s.drop_first());
    }
}

proof fn lemma_trim_end_keeps_start(s: Seq<char>)
    requires
        s.len() > 0 ==> !is_ws(s[0]),
    ensures
        crate::text::trim_end(s).len() > 0 ==> !is_ws(crate::text::trim_end(s)[0]),
        crate::text::trim_end(s).len() > 0 ==> !is_ws(crate::text::trim_end(s).last()),
        crate::text::trim_end(s).len() > 0 ==> crate::text::trim_end(s)[0] == s[0],
    decreases s.len(),
{
    if s.len() > 0 && is_ws(s.last()) {
        if s.len() > 1 {
            assert(s.drop_last()[0] == s[0]);
        }
        lemma_trim_end_keeps_start(s.drop_last());
    }
}

/// Trimming twice is trimming once.
pub proof fn lemma_trim_idempotent(s: Seq<char>)
    ensures
        trim(trim(s)) == trim(s),
{
    let a = crate::text::trim_start(s);
    lemma_trim_start_idempotent(s);
    lemma_trim_end_keeps_start(a);
    let t = crate::text::trim_end(a);
    if t.len() > 0 {
        assert(crate::text::trim_start(t) == t);
        assert(crate::text::trim_end(t) == t);
    } else {
        assert(crate::text::trim_start(t) == t);
        assert(crate::text::trim_end(t) == t);
    }
}


/// The grammars the extractor can parse.
#[derive(Debug, Clone, Copy, PartialEq, Eq)]
pub enum Grammar {
    Rust,
    TypeScript,
    Tsx,
    JavaScript,
    Python,
}

/// Which structural queries run on a file.
#[derive(Debug, Clone, Copy, PartialEq, Eq)]
pub enum QuerySet {
    /// Rust items, `use` paths and `pub` items.
    RustItems,
    /// TypeScript and JavaScript declarations, imports and exports.
    Script,
    /// Python functions and classes.
    Python,
    /// A recognised grammar with no queries of its own.
    Plain,
}

/// Why extraction failed.
#[derive(Debug, Clone, Copy, PartialEq, Eq)]
pub enum ExtractError {
    /// The file's extension names no known grammar.
    UnsupportedLanguage,
    /// The parser produced no syntax tree (tree-sitter gives a tree for
    /// every text with these grammars, so extraction never reports this).
    ParseFailure,
    /// A structural query did not compile against its grammar.
    QueryCompileFailure,
}

/// The grammar for a file, chosen by its extension in any ASCII case.
pub open spec fn grammar_of(file: Seq<char>) -> Option<Grammar> {
    match extension(file) {
        None => None,
        Some(e) => {
            let l = lowered(e);
            if l == "rs"@ {
                Some(Grammar::Rust)
            } else if l == "ts"@ || l == "mts"@ || l == "cts"@ {
                Some(Grammar::TypeScript)
            } else if l == "tsx"@ {
                Some(Grammar::Tsx)
            } else if l == "js"@ || l == "jsx"@ || l == "mjs"@ || l == "cjs"@ {
                Some(Grammar::JavaScript)
            } else if l == "py"@ {
                Some(Grammar::Python)
            } else {
                None
            }
        },
    }
}

/// The queries that run on a file: Rust's for the exact extension `rs`,
/// the script queries for the common script extensions in any case,
/// Python's for `py` in any case.
pub open spec fn query_set_of(file: Seq<char>) -> QuerySet {
    match extension(file) {
        None => QuerySet::Plain,
        Some(e) => {
            let l = lowered(e);
            if e == "rs"@ {
                QuerySet::RustItems
            } else if l == "ts"@ || l == "tsx"@ || l == "js"@ || l == "jsx"@ || l == "mjs"@ || l
                == "cjs"@ {
                QuerySet::Script
            } else if l == "py"@ {
                QuerySet::Python
            } else {
                QuerySet::Plain
            }
        },
    }
}

/// The grammar for a file, if its extension names one.
pub fn pick_language(file: &str) -> (r: Option<Grammar>)
    ensures
        r == grammar_of(file@),
{
    let cs = chars_of(file);
    match extension_chars(cs.as_slice()) {
        None => None,
        Some(e) => {
            let e = e.as_slice();
            if lower_equals(e, "rs") {
                Some(Grammar::Rust)
            } else if lower_equals(e, "ts") || lower_equals(e, "mts") || lower_equals(e, "cts") {
                Some(Grammar::TypeScript)
            } else if lower_equals(e, "tsx") {
                Some(Grammar::Tsx)
            } else if lower_equals(e, "js") || lower_equals(e, "jsx") || lower_equals(e, "mjs")
                || lower_equals(e, "cjs") {
                Some(Grammar::JavaScript)
            } else if lower_equals(e, "py") {
                Some(Grammar::Python)
            } else {
                None
            }
        },
    }
}

/// The queries that run on a file.
pub fn pick_query_set(file: &str) -> (r: QuerySet)
    ensures
        r == query_set_of(file@),
{
    let cs = chars_of(file);
    match extension_chars(cs.as_slice()) {
        None => QuerySet::Plain,
        Some(e) => {
            let es = string_of(e.as_slice());
            let e = e.as_slice();
            if crate::text::same_text(&es, "rs") {
                QuerySet::RustItems
            } else if lower_equals(e, "ts") || lower_equals(e, "tsx") || lower_equals(e, "js")
                || lower_equals(e, "jsx") || lower_equals(e, "mjs") || lower_equals(e, "cjs") {
                QuerySet::Script
            } else if lower_equals(e, "py") {
                QuerySet::Python
            } else {
                QuerySet::Plain
            }
        },
    }
}

/// Puts extracted facts in their published form: the path with `/`
/// separators, imports and exports sorted without duplicates, symbols
/// sorted by start line and name.
pub fn finish_file_symbols(file: &str, imports: Vec<String>, exports: Vec<String>, symbols: Vec<Symbol>) -> (r:
    FileSymbols)
    ensures
        finished(file@, text_views(imports@), text_views(exports@), symbol_views(symbols@), r),
{
    FileSymbols {
        file: normalize_path_for_output(file),
        imports: dedup_sorted(imports),
        exports: dedup_sorted(exports),
        symbols: sort_symbols(symbols),
    }
}


/// Structural query: Rust `use` paths.
pub const RUST_USE_QUERY: &'static str = r#"(use_declaration argument: (_) @path)"#;

/// Structural query: Names of public Rust functions.
pub const RUST_PUB_FN_QUERY: &'static str = r#"((function_item (visibility_modifier) @vis name: (identifier) @name) (#match? @vis "^pub"))"#;

/// Structural query: Names of public Rust structs.
pub const RUST_PUB_STRUCT_QUERY: &'static str = r#"((struct_item (visibility_modifier) @vis name: (type_identifier) @name) (#match? @vis "^pub"))"#;

/// Structural query: Names of public Rust enums.
pub const RUST_PUB_ENUM_QUERY: &'static str = r#"((enum_item (visibility_modifier) @vis name: (type_identifier) @name) (#match? @vis "^pub"))"#;

/// Structural query: Names of public Rust traits.
pub const RUST_PUB_TRAIT_QUERY: &'static str = r#"((trait_item (visibility_modifier) @vis name: (type_identifier) @name) (#match? @vis "^pub"))"#;

/// Structural query: Rust functions.
pub const RUST_FN_QUERY: &'static str = r#"(function_item name: (identifier) @name) @def"#;

/// Structural query: Rust structs.
pub const RUST_STRUCT_QUERY: &'static str = r#"(struct_item name: (type_identifier) @name) @def"#;

/// Structural query: Rust enums.
pub const RUST_ENUM_QUERY: &'static str = r#"(enum_item name: (type_identifier) @name) @def"#;

/// Structural query: Rust traits.
pub const RUST_TRAIT_QUERY: &'static str = r#"(trait_item name: (type_identifier) @name) @def"#;

/// Structural query: Script import sources, quoted.
pub const SCRIPT_IMPORT_QUERY: &'static str = r#"(import_statement source: (string) @src)"#;

/// Structural query: Names of exported script functions.
pub const SCRIPT_EXPORT_FN_QUERY: &'static str = r#"(export_statement declaration: (function_declaration name: (identifier) @name))"#;

/// Structural query: Names of exported script classes.
pub const SCRIPT_EXPORT_CLASS_QUERY: &'static str = r#"(export_statement declaration: (class_declaration name: (type_identifier) @name))"#;

/// Structural query: Names of exported script bindings.
pub const SCRIPT_EXPORT_CONST_QUERY: &'static str = r#"(export_statement declaration: (lexical_declaration (variable_declarator name: (identifier) @name)))"#;

/// Structural query: Names in script export lists.
pub const SCRIPT_EXPORT_LIST_QUERY: &'static str = r#"(export_statement (export_clause (export_specifier name: (identifier) @name)))"#;

/// Structural query: Script function declarations.
pub const SCRIPT_FN_QUERY: &'static str = r#"(function_declaration name: (identifier) @name) @def"#;

/// Structural query: Script bindings to arrow functions.
pub const SCRIPT_ARROW_QUERY: &'static str = r#"(lexical_declaration (variable_declarator name: (identifier) @name value: (arrow_function))) @def"#;

/// Structural query: Script classes.
pub const SCRIPT_CLASS_QUERY: &'static str = r#"(class_declaration name: (type_identifier) @name) @def"#;

/// Structural query: Script class methods.
pub const SCRIPT_METHOD_QUERY: &'static str = r#"(method_definition name: (property_identifier) @name) @def"#;

/// Structural query: Python functions.
pub const PY_FN_QUERY: &'static str = r#"(function_definition name: (identifier) @name) @def"#;

/// Structural query: Python classes.
pub const PY_CLASS_QUERY: &'static str = r#"(class_definition name: (identifier) @name) @def"#;

/// The symbols that one query finds in a text.
pub open spec fn query_symbols(
    g: Grammar,
    source: Seq<char>,
    query: Seq<char>,
    kind: Seq<char>,
    with_signature: bool,
) -> Seq<SymbolView> {
    symbols_of_matches(captures_of(g, query, source), kind, with_signature)
}

/// The texts that one query captures under `role` in a text.
pub open spec fn query_texts(g: Grammar, source: Seq<char>, query: Seq<char>, role: Seq<char>) -> Seq<Seq<char>> {
    texts_of_matches(captures_of(g, query, source), role)
}

/// Every query of the set compiles against the grammar.
pub open spec fn queries_compile(g: Grammar, set: QuerySet) -> bool {
    match set {
        QuerySet::RustItems => {
            &&& query_compiles(g, RUST_USE_QUERY@)
            &&& query_compiles(g, RUST_PUB_FN_QUERY@)
            &&& query_compiles(g, RUST_PUB_STRUCT_QUERY@)
            &&& query_compiles(g, RUST_PUB_ENUM_QUERY@)
            &&& query_compiles(g, RUST_PUB_TRAIT_QUERY@)
            &&& query_compiles(g, RUST_FN_QUERY@)
            &&& query_compiles(g, RUST_STRUCT_QUERY@)
            &&& query_compiles(g, RUST_ENUM_QUERY@)
            &&& query_compiles(g, RUST_TRAIT_QUERY@)
        },
        QuerySet::Script => {
            &&& query_compiles(g, SCRIPT_IMPORT_QUERY@)
            &&& query_compiles(g, SCRIPT_EXPORT_FN_QUERY@)
            &&& query_compiles(g, SCRIPT_EXPORT_CLASS_QUERY@)
            &&& query_compiles(g, SCRIPT_EXPORT_CONST_QUERY@)
            &&& query_compiles(g, SCRIPT_EXPORT_LIST_QUERY@)
            &&& query_compiles(g, SCRIPT_FN_QUERY@)
            &&& query_compiles(g, SCRIPT_ARROW_QUERY@)
            &&& query_compiles(g, SCRIPT_CLASS_QUERY@)
            &&& query_compiles(g, SCRIPT_METHOD_QUERY@)
        },
        QuerySet::Python => {
            &&& query_compiles(g, PY_FN_QUERY@)
            &&& query_compiles(g, PY_CLASS_QUERY@)
        },
        QuerySet::Plain => true,
    }
}

/// The symbols the queries of a set find, query by query.
pub open spec fn expected_symbols(g: Grammar, set: QuerySet, source: Seq<char>) -> Seq<SymbolView> {
    match set {
        QuerySet::RustItems => query_symbols(g, source, RUST_FN_QUERY@, "function"@, true) + query_symbols(
            g,
            source,
            RUST_STRUCT_QUERY@,
            "struct"@,
            false,
        ) + query_symbols(g, source, RUST_ENUM_QUERY@, "enum"@, false) + query_symbols(
            g,
            source,
            RUST_TRAIT_QUERY@,
            "trait"@,
            false,
        ),
        QuerySet::Script => query_symbols(g, source, SCRIPT_FN_QUERY@, "function"@, true) + query_symbols(
            g,
            source,
            SCRIPT_ARROW_QUERY@,
            "function"@,
            true,
        ) + query_symbols(g, source, SCRIPT_CLASS_QUERY@, "class"@, false) + query_symbols(
            g,
            source,
            SCRIPT_METHOD_QUERY@,
            "method"@,
            true,
        ),
        QuerySet::Python => query_symbols(g, source, PY_FN_QUERY@, "function"@, true) + query_symbols(
            g,
            source,
            PY_CLASS_QUERY@,
            "class"@,
            false,
        ),
        QuerySet::Plain => Seq::empty(),
    }
}

/// The imports the queries of a set find: Rust `use` paths, or script
/// import sources without their quotes.
pub open spec fn expected_imports(g: Grammar, set: QuerySet, source: Seq<char>) -> Seq<Seq<char>> {
    match set {
        QuerySet::RustItems => query_texts(g, source, RUST_USE_QUERY@, "path"@),
        QuerySet::Script => query_texts(g, source, SCRIPT_IMPORT_QUERY@, "src"@).map_values(
            |t: Seq<char>| unquoted(t),
        ),
        _ => Seq::empty(),
    }
}

/// The names of public items that the queries of a set find.
pub open spec fn expected_exports(g: Grammar, set: QuerySet, source: Seq<char>) -> Seq<Seq<char>> {
    match set {
        QuerySet::RustItems => query_texts(g, source, RUST_PUB_FN_QUERY@, "name"@) + query_texts(
            g,
            source,
            RUST_PUB_STRUCT_QUERY@,
            "name"@,
        ) + query_texts(g, source, RUST_PUB_ENUM_QUERY@, "name"@) + query_texts(
            g,
            source,
            RUST_PUB_TRAIT_QUERY@,
            "name"@,
        ),
        QuerySet::Script => query_texts(g, source, SCRIPT_EXPORT_FN_QUERY@, "name"@) + query_texts(
            g,
            source,
            SCRIPT_EXPORT_CLASS_QUERY@,
            "name"@,
        ) + query_texts(g, source, SCRIPT_EXPORT_CONST_QUERY@, "name"@) + query_texts(
            g,
            source,
            SCRIPT_EXPORT_LIST_QUERY@,
            "name"@,
        ),
        _ => Seq::empty(),
    }
}

/// What extracting `file` with text `source` gives: an unsupported-language
/// error where the extension names no grammar; else, where every query of
/// the file's set compiles, the published form of what those queries find;
/// else a query error.
pub open spec fn extraction(file: Seq<char>, source: Seq<char>, r: Result<FileSymbols, ExtractError>) -> bool {
    match grammar_of(file) {
        None => r == Err::<FileSymbols, ExtractError>(ExtractError::UnsupportedLanguage),
        Some(g) => {
            let set = query_set_of(file);
            if queries_compile(g, set) {
                match r {
                    Ok(fs) => finished(
                        file,
                        expected_imports(g, set, source),
                        expected_exports(g, set, source),
                        expected_symbols(g, set, source),
                        fs,
                    ),
                    Err(_) => false,
                }
            } else {
                r == Err::<FileSymbols, ExtractError>(ExtractError::QueryCompileFailure)
            }
        },
    }
}

/// Runs one symbol query and appends the symbols its matches stand for.
fn collect_symbols(parsed: &ParsedSource, query: &str, kind: &str, with_signature: bool, out: &mut Vec<Symbol>) -> (r:
    Result<(), ExtractError>)
    ensures
        r is Ok <==> query_compiles(parsed.grammar(), query@),
        r is Err ==> r == Err::<(), ExtractError>(ExtractError::QueryCompileFailure) && final(out)@ == old(out)@,
        r is Ok ==> symbol_views(final(out)@) == symbol_views(old(out)@) + query_symbols(
            parsed.grammar(),
            parsed.text(),
            query@,
            kind@,
            with_signature,
        ),
{
    match compile_query(parsed, query) {
        Err(_) => Err(ExtractError::QueryCompileFailure),
        Ok(q) => {
            let matches = query_captures(&q, parsed);
            let mut found = symbols_from_matches(&matches, kind, with_signature);
            let ghost before = out@;
            let ghost f = found@;
            out.append(&mut found);
            proof {
                assert(symbol_views(out@) =~= symbol_views(before) + symbol_views(f));
            }
            Ok(())
        },
    }
}

/// Runs one text query and appends the texts of the captures named `role`.
fn collect_texts(
    parsed: &ParsedSource,
    query: &str,
    role: &str,
    unquote: bool,
    out: &mut Vec<String>,
) -> (r: Result<(), ExtractError>)
    ensures
        r is Ok <==> query_compiles(parsed.grammar(), query@),
        r is Err ==> r == Err::<(), ExtractError>(ExtractError::QueryCompileFailure) && final(out)@ == old(out)@,
        r is Ok ==> text_views(final(out)@) == text_views(old(out)@) + (if unquote {
            query_texts(parsed.grammar(), parsed.text(), query@, role@).map_values(|t: Seq<char>| unquoted(t))
        } else {
            query_texts(parsed.grammar(), parsed.text(), query@, role@)
        }),
{
    match compile_query(parsed, query) {
        Err(_) => Err(ExtractError::QueryCompileFailure),
        Ok(q) => {
            let matches = query_captures(&q, parsed);
            let mut found = texts_from_matches(&matches, role, unquote);
            let ghost before = out@;
            let ghost f = found@;
            out.append(&mut found);
            proof {
                assert(text_views(out@) =~= text_views(before) + text_views(f));
            }
            Ok(())
        },
    }
}

/// Extracts the symbols, imports and exports of one file from its text.
/// `file` names the file and chooses the grammar and the queries.
pub fn analyze_file(file: &str, source: &str) -> (r: Result<FileSymbols, ExtractError>)
    ensures
        extraction(file@, source@, r),
        r matches Ok(fs) ==> forall|i: int|
            0 <= i < fs.symbols@.len() ==> symbol_wellformed(#[trigger] symbol_views(fs.symbols@)[i]),
{
    let grammar = match pick_language(file) {
        None => {
            return Err(ExtractError::UnsupportedLanguage);
        },
        Some(g) => g,
    };
    let parsed = match parse_source(grammar, source) {
        None => {
            return Err(ExtractError::ParseFailure);
        },
        Some(p) => p,
    };
    let p = &parsed;
    let ghost src = source@;
    let mut symbols: Vec<Symbol> = Vec::new();
    let mut imports: Vec<String> = Vec::new();
    let mut exports: Vec<String> = Vec::new();
    let set = pick_query_set(file);
    match set {
        QuerySet::RustItems => {
            collect_texts(p, RUST_USE_QUERY, "path", false, &mut imports)?;
            collect_texts(p, RUST_PUB_FN_QUERY, "name", false, &mut exports)?;
            collect_texts(p, RUST_PUB_STRUCT_QUERY, "name", false, &mut exports)?;
            collect_texts(p, RUST_PUB_ENUM_QUERY, "name", false, &mut exports)?;
            collect_texts(p, RUST_PUB_TRAIT_QUERY, "name", false, &mut exports)?;
            collect_symbols(p, RUST_FN_QUERY, "function", true, &mut symbols)?;
            collect_symbols(p, RUST_STRUCT_QUERY, "struct", false, &mut symbols)?;
            collect_symbols(p, RUST_ENUM_QUERY, "enum", false, &mut symbols)?;
            collect_symbols(p, RUST_TRAIT_QUERY, "trait", false, &mut symbols)?;
        },
        QuerySet::Script => {
            collect_texts(p, SCRIPT_IMPORT_QUERY, "src", true, &mut imports)?;
            collect_texts(p, SCRIPT_EXPORT_FN_QUERY, "name", false, &mut exports)?;
            collect_texts(p, SCRIPT_EXPORT_CLASS_QUERY, "name", false, &mut exports)?;
            collect_texts(p, SCRIPT_EXPORT_CONST_QUERY, "name", false, &mut exports)?;
            collect_texts(p, SCRIPT_EXPORT_LIST_QUERY, "name", false, &mut exports)?;
            collect_symbols(p, SCRIPT_FN_QUERY, "function", true, &mut symbols)?;
            collect_symbols(p, SCRIPT_ARROW_QUERY, "function", true, &mut symbols)?;
            collect_symbols(p, SCRIPT_CLASS_QUERY, "class", false, &mut symbols)?;
            collect_symbols(p, SCRIPT_METHOD_QUERY, "method", true, &mut symbols)?;
        },
        QuerySet::Python => {
            collect_symbols(p, PY_FN_QUERY, "function", true, &mut symbols)?;
            collect_symbols(p, PY_CLASS_QUERY, "class", false, &mut symbols)?;
        },
        QuerySet::Plain => {},
    }
    proof {
        assert(text_views(imports@) =~= expected_imports(grammar, set, src));
        assert(text_views(exports@) =~= expected_exports(grammar, set, src));
        assert(symbol_views(symbols@) =~= expected_symbols(grammar, set, src));
        lemma_expected_wellformed(grammar, set, src);
    }
    let fs = finish_file_symbols(file, imports, exports, symbols);
    proof {
        let e = expected_symbols(grammar, set, src);
        let out = symbol_views(fs.symbols@);
        assert forall|i: int| 0 <= i < fs.symbols@.len() implies symbol_wellformed(#[trigger] out[i]) by {
            assert(out.contains(out[i]));
            lemma_same_members(out, e, out[i]);
            let j = choose|j: int| 0 <= j < e.len() && e[j] == out[i];
        }
    }
    Ok(fs)
}

/// Two extractions of the same file name and text agree: both succeed or
/// fail alike, and where they succeed their path, imports, exports and
/// symbols agree in every character.
pub proof fn lemma_extraction_deterministic(
    file: Seq<char>,
    source: Seq<char>,
    r1: Result<FileSymbols, ExtractError>,
    r2: Result<FileSymbols, ExtractError>,
)
    requires
        extraction(file, source, r1),
        extraction(file, source, r2),
    ensures
        r1 is Ok <==> r2 is Ok,
        r1 is Err ==> r1 == r2,
        r1 matches Ok(a) ==> (r2 matches Ok(b) ==> file_symbols_view(a) == file_symbols_view(b)),
{
    if let Some(g) = grammar_of(file) {
        let set = query_set_of(file);
        if queries_compile(g, set) {
            if let (Ok(a), Ok(b)) = (r1, r2) {
                lemma_finish_deterministic(
                    file,
                    expected_imports(g, set, source),
                    expected_exports(g, set, source),
                    expected_symbols(g, set, source),
                    a,
                    b,
                );
            }
        }
    }
}

proof fn lemma_strictly_sorted_unique(a: Seq<Seq<char>>, b: Seq<Seq<char>>)
    requires
        strictly_sorted(a),
        strictly_sorted(b),
        forall|t: Seq<char>| a.contains(t) <==> b.contains(t),
    ensures
        a == b,
    decreases a.len(),
{
    if a.len() == 0 {
        if b.len() > 0 {
            assert(b.contains(b[0]));
        }
        assert(a =~= b);
    } else if b.len() == 0 {
        assert(a.contains(a[0]));
    } else {
        assert(a.contains(a[0]) && b.contains(b[0]));
        let i = choose|i: int| 0 <= i < b.len() && b[i] == a[0];
        let j = choose|j: int| 0 <= j < a.len() && a[j] == b[0];
        if i > 0 {
            assert(text_lt(b[0], b[i]));
            if j > 0 {
                assert(text_lt(a[0], a[j]));
                lemma_lex_order(a[0], b[0], a[0], false);
            } else {
                lemma_lex_order(a[0], a[0], a[0], false);
            }
        }
        assert(a[0] == b[0]) by {
            if i > 0 {
                lemma_lex_order(b[0], a[0], b[0], false);
                lemma_lex_order(a[0], b[0], a[0], false);
            }
        }
        let a1 = a.drop_first();
        let b1 = b.drop_first();
        assert forall|t: Seq<char>| a1.contains(t) <==> b1.contains(t) by {
            if a1.contains(t) {
                let x = choose|x: int| 0 <= x < a1.len() && a1[x] == t;
                assert(text_lt(a[0], a[x + 1]));
                lemma_lex_order(a[0], a[0], a[0], false);
                assert(a.contains(t));
                let y = choose|y: int| 0 <= y < b.len() && b[y] == t;
                if y == 0 {
                    assert(t == a[0]);
                }
                assert(b1[y - 1] == t);
            }
            if b1.contains(t) {
                let x = choose|x: int| 0 <= x < b1.len() && b1[x] == t;
                assert(text_lt(b[0], b[x + 1]));
                lemma_lex_order(b[0], b[0], b[0], false);
                assert(b.contains(t));
                let y = choose|y: int| 0 <= y < a.len() && a[y] == t;
                if y == 0 {
                    assert(t == b[0]);
                }
                assert(a1[y - 1] == t);
            }
        }
        lemma_strictly_sorted_unique(a1, b1);
        assert(a =~= seq![a[0]] + a1);
        assert(b =~= seq![b[0]] + b1);
    }
}

proof fn lemma_symbol_le_total()
    ensures
        vstd::relations::total_ordering(|a: SymbolView, b: SymbolView| symbol_le(a, b)),
{
    let leq = |a: SymbolView, b: SymbolView| symbol_le(a, b);
    assert forall|a: SymbolView, b: SymbolView| #[trigger] leq(a, b) && #[trigger] leq(b, a) implies a == b by {
        lemma_symbol_order(a, b, a);
    }
    assert forall|a: SymbolView, b: SymbolView, c: SymbolView| #[trigger] leq(a, b) && #[trigger] leq(b, c) implies leq(a, c) by {
        lemma_symbol_order(a, b, c);
    }
    assert forall|a: SymbolView, b: SymbolView| #[trigger] leq(a, b) || #[trigger] leq(b, a) by {
        lemma_symbol_order(a, b, a);
    }
}

/// The views of a `FileSymbols`: its path, imports, exports and symbols as
/// plain values.
pub open spec fn file_symbols_view(f: FileSymbols) -> (Seq<char>, Seq<Seq<char>>, Seq<Seq<char>>, Seq<SymbolView>) {
    (f.file@, text_views(f.imports@), text_views(f.exports@), symbol_views(f.symbols@))
}

/// What `finish_file_symbols` promises of its result `r` for extracted
/// imports, exports and symbols given as plain values.
pub open spec fn finished(
    file: Seq<char>,
    imports: Seq<Seq<char>>,
    exports: Seq<Seq<char>>,
    symbols: Seq<SymbolView>,
    r: FileSymbols,
) -> bool {
    &&& r.file@ == forward_slashes(file)
    &&& strictly_sorted(text_views(r.imports@))
    &&& forall|t: Seq<char>| text_views(r.imports@).contains(t) <==> imports.contains(t)
    &&& strictly_sorted(text_views(r.exports@))
    &&& forall|t: Seq<char>| text_views(r.exports@).contains(t) <==> exports.contains(t)
    &&& ordered(symbol_views(r.symbols@))
    &&& ordered_by_key(symbol_views(r.symbols@))
    &&& symbol_views(r.symbols@).to_multiset() == symbols.to_multiset()
}

/// Putting the same extracted facts in published form twice gives the same
/// result: the path, imports, exports and symbols agree in every character.
pub proof fn lemma_finish_deterministic(
    file: Seq<char>,
    imports: Seq<Seq<char>>,
    exports: Seq<Seq<char>>,
    symbols: Seq<SymbolView>,
    r1: FileSymbols,
    r2: FileSymbols,
)
    requires
        finished(file, imports, exports, symbols, r1),
        finished(file, imports, exports, symbols, r2),
    ensures
        file_symbols_view(r1) == file_symbols_view(r2),
{
    assert forall|t: Seq<char>| text_views(r1.imports@).contains(t) <==> text_views(r2.imports@).contains(t) by {
        assert(text_views(r1.imports@).contains(t) <==> imports.contains(t));
        assert(text_views(r2.imports@).contains(t) <==> imports.contains(t));
    }
    assert forall|t: Seq<char>| text_views(r1.exports@).contains(t) <==> text_views(r2.exports@).contains(t) by {
        assert(text_views(r1.exports@).contains(t) <==> exports.contains(t));
        assert(text_views(r2.exports@).contains(t) <==> exports.contains(t));
    }
    lemma_strictly_sorted_unique(text_views(r1.imports@), text_views(r2.imports@));
    lemma_strictly_sorted_unique(text_views(r1.exports@), text_views(r2.exports@));
    lemma_symbol_le_total();
    let leq = |a: SymbolView, b: SymbolView| symbol_le(a, b);
    let s1 = symbol_views(r1.symbols@);
    let s2 = symbol_views(r2.symbols@);
    assert(vstd::relations::sorted_by(s1, leq)) by {
        assert forall|i: int, j: int| 0 <= i < j < s1.len() implies #[trigger] leq(s1[i], s1[j]) by {
            assert(symbol_le(s1[i], s1[j]));
        }
    }
    assert(vstd::relations::sorted_by(s2, leq)) by {
        assert forall|i: int, j: int| 0 <= i < j < s2.len() implies #[trigger] leq(s2[i], s2[j]) by {
            assert(symbol_le(s2[i], s2[j]));
        }
    }
    vstd::seq_lib::lemma_sorted_unique(s1, s2, leq);
}

/// The fields of an extracted symbol are well formed: a non-empty name
/// without surrounding white space, and a signature, present exactly for
/// functions and methods, of one line and at most `SIGNATURE_CAP`
/// characters.
pub open spec fn symbol_wellformed(s: SymbolView) -> bool {
    &&& s.name.len() > 0
    &&& trim(s.name) == s.name
    &&& (s.signature is Some <==> (s.kind == "function"@ || s.kind == "method"@))
    &&& (s.signature matches Some(g) ==> g.len() <= SIGNATURE_CAP && forall|i: int| 0 <= i < g.len() ==> g[i] != '\n')
}

proof fn lemma_trim_start_part(s: Seq<char>) -> (a: int)
    ensures
        0 <= a <= s.len(),
        crate::text::trim_start(s) == s.subrange(a, s.len() as int),
    decreases s.len(),
{
    if s.len() > 0 && is_ws(s[0]) {
        let a = lemma_trim_start_part(s.drop_first());
        assert(s.drop_first().subrange(a, s.len() - 1) =~= s.subrange(a + 1, s.len() as int));
        a + 1
    } else {
        assert(s.subrange(0, s.len() as int) =~= s);
        0
    }
}

proof fn lemma_trim_end_part(s: Seq<char>) -> (b: int)
    ensures
        0 <= b <= s.len(),
        crate::text::trim_end(s) == s.subrange(0, b),
    decreases s.len(),
{
    if s.len() > 0 && is_ws(s.last()) {
        let b = lemma_trim_end_part(s.drop_last());
        assert(s.drop_last().subrange(0, b) =~= s.subrange(0, b));
        b
    } else {
        assert(s.subrange(0, s.len() as int) =~= s);
        s.len() as int
    }
}

proof fn lemma_braces_part(s: Seq<char>) -> (b: int)
    ensures
        0 <= b <= s.len(),
        trim_end_braces(s) == s.subrange(0, b),
    decreases s.len(),
{
    if s.len() > 0 && s.last() == '{' {
        let b = lemma_braces_part(s.drop_last());
        assert(s.drop_last().subrange(0, b) =~= s.subrange(0, b));
        b
    } else {
        assert(s.subrange(0, s.len() as int) =~= s);
        s.len() as int
    }
}

/// No line break in `s`.
pub open spec fn one_line(s: Seq<char>) -> bool {
    forall|i: int| 0 <= i < s.len() ==> s[i] != '\n'
}

proof fn lemma_one_line_part(s: Seq<char>, a: int, b: int)
    requires
        one_line(s),
        0 <= a <= b <= s.len(),
    ensures
        one_line(s.subrange(a, b)),
{
    assert forall|i: int| 0 <= i < b - a implies s.subrange(a, b)[i] != '\n' by {
        assert(s.subrange(a, b)[i] == s[a + i]);
    }
}

proof fn lemma_trim_part(s: Seq<char>)
    requires
        one_line(s),
    ensures
        one_line(trim(s)),
        trim(s).len() <= s.len(),
{
    let a = lemma_trim_start_part(s);
    lemma_one_line_part(s, a, s.len() as int);
    let t = crate::text::trim_start(s);
    let b = lemma_trim_end_part(t);
    lemma_one_line_part(t, 0, b);
}

proof fn lemma_head_line_one_line(s: Seq<char>)
    ensures
        one_line(head_line(s)),
    decreases s.len(),
{
    if !(s.len() == 0 || s[0] == '{' || s[0] == '\n') {
        lemma_head_line_one_line(s.drop_first());
        let h = head_line(s);
        assert forall|i: int| 0 <= i < h.len() implies h[i] != '\n' by {
            if i > 0 {
                assert(h[i] == head_line(s.drop_first())[i - 1]);
            }
        }
    }
}

proof fn lemma_collapse_one_line(s: Seq<char>)
    requires
        one_line(s),
    ensures
        one_line(collapse_ws(s)),
    decreases s.len(),
{
    if s.len() > 0 {
        let d = s.drop_last();
        assert(one_line(d)) by {
            assert forall|i: int| 0 <= i < d.len() implies d[i] != '\n' by {
                assert(d[i] == s[i]);
            }
        }
        lemma_collapse_one_line(d);
        assert(s.last() == s[s.len() - 1]);
    }
}

/// A signature is one line of at most `SIGNATURE_CAP` characters.
pub proof fn lemma_signature_shape(def: Seq<char>)
    ensures
        signature_of(def).len() <= SIGNATURE_CAP,
        one_line(signature_of(def)),
{
    lemma_head_line_one_line(def);
    let c = collapse_ws(head_line(def));
    lemma_collapse_one_line(head_line(def));
    let t = take(c, SIGNATURE_CAP as nat);
    if c.len() > SIGNATURE_CAP {
        lemma_one_line_part(c, 0, SIGNATURE_CAP as int);
    }
    lemma_trim_part(t);
    let u = trim(t);
    let b = lemma_braces_part(u);
    lemma_one_line_part(u, 0, b);
    lemma_trim_part(trim_end_braces(u));
}

proof fn lemma_matches_wellformed(ms: Seq<Seq<CaptureView>>, kind: Seq<char>, with_signature: bool)
    requires
        with_signature <==> (kind == "function"@ || kind == "method"@),
    ensures
        forall|i: int|
            0 <= i < symbols_of_matches(ms, kind, with_signature).len() ==> symbol_wellformed(
                #[trigger] symbols_of_matches(ms, kind, with_signature)[i],
            ),
    decreases ms.len(),
{
    if ms.len() > 0 {
        lemma_matches_wellformed(ms.drop_last(), kind, with_signature);
        if let Some(sv) = symbol_of_match(ms.last(), kind, with_signature) {
            let n = last_capture(ms.last(), "name"@)->0;
            lemma_trim_idempotent(n.1);
            let d = match last_capture(ms.last(), "def"@) {
                Some(d) => d,
                None => n,
            };
            lemma_signature_shape(d.1);
            assert(symbol_wellformed(sv));
        }
        let prev = symbols_of_matches(ms.drop_last(), kind, with_signature);
        let all = symbols_of_matches(ms, kind, with_signature);
        assert forall|i: int| 0 <= i < all.len() implies symbol_wellformed(#[trigger] all[i]) by {
            if i < prev.len() {
                assert(all[i] == prev[i]);
            }
        }
    }
}

proof fn lemma_expected_wellformed(g: Grammar, set: QuerySet, source: Seq<char>)
    ensures
        forall|i: int|
            0 <= i < expected_symbols(g, set, source).len() ==> symbol_wellformed(
                #[trigger] expected_symbols(g, set, source)[i],
            ),
{
    reveal_strlit("function");
    reveal_strlit("method");
    reveal_strlit("struct");
    reveal_strlit("enum");
    reveal_strlit("trait");
    reveal_strlit("class");
    let f = "function"@;
    let me = "method"@;
    assert(f.len() == 8 && me.len() == 6);
    assert("struct"@.len() == 6 && "struct"@[0] != me[0]);
    assert("enum"@.len() == 4 && "trait"@.len() == 5 && "class"@.len() == 5);
    assert("struct"@ != f && "struct"@ != me);
    assert("enum"@ != f && "enum"@ != me);
    assert("trait"@ != f && "trait"@ != me);
    assert("class"@ != f && "class"@ != me);
    let q = |query: Seq<char>, kind: Seq<char>, sig: bool| query_symbols(g, source, query, kind, sig);
    let cs = |query: Seq<char>| captures_of(g, query, source);
    match set {
        QuerySet::RustItems => {
            lemma_matches_wellformed(cs(RUST_FN_QUERY@), "function"@, true);
            lemma_matches_wellformed(cs(RUST_STRUCT_QUERY@), "struct"@, false);
            lemma_matches_wellformed(cs(RUST_ENUM_QUERY@), "enum"@, false);
            lemma_matches_wellformed(cs(RUST_TRAIT_QUERY@), "trait"@, false);
        },
        QuerySet::Script => {
            lemma_matches_wellformed(cs(SCRIPT_FN_QUERY@), "function"@, true);
            lemma_matches_wellformed(cs(SCRIPT_ARROW_QUERY@), "function"@, true);
            lemma_matches_wellformed(cs(SCRIPT_CLASS_QUERY@), "class"@, false);
            lemma_matches_wellformed(cs(SCRIPT_METHOD_QUERY@), "method"@, true);
        },
        QuerySet::Python => {
            lemma_matches_wellformed(cs(PY_FN_QUERY@), "function"@, true);
            lemma_matches_wellformed(cs(PY_CLASS_QUERY@), "class"@, false);
        },
        QuerySet::Plain => {},
    }
    let e = expected_symbols(g, set, source);
    assert forall|i: int| 0 <= i < e.len() implies symbol_wellformed(#[trigger] e[i]) by {
        match set {
            QuerySet::RustItems => {
                let a = q(RUST_FN_QUERY@, "function"@, true);
                let b = q(RUST_STRUCT_QUERY@, "struct"@, false);
                let c = q(RUST_ENUM_QUERY@, "enum"@, false);
                let d = q(RUST_TRAIT_QUERY@, "trait"@, false);
                if i < a.len() {
                    assert(e[i] == a[i]);
                } else if i < a.len() + b.len() {
                    assert(e[i] == b[i - a.len()]);
                } else if i < a.len() + b.len() + c.len() {
                    assert(e[i] == c[i - a.len() - b.len()]);
                } else {
                    assert(e[i] == d[i - a.len() - b.len() - c.len()]);
                }
            },
            QuerySet::Script => {
                let a = q(SCRIPT_FN_QUERY@, "function"@, true);
                let b = q(SCRIPT_ARROW_QUERY@, "function"@, true);
                let c = q(SCRIPT_CLASS_QUERY@, "class"@, false);
                let d = q(SCRIPT_METHOD_QUERY@, "method"@, true);
                if i < a.len() {
                    assert(e[i] == a[i]);
                } else if i < a.len() + b.len() {
                    assert(e[i] == b[i - a.len()]);
                } else if i < a.len() + b.len() + c.len() {
                    assert(e[i] == c[i - a.len() - b.len()]);
                } else {
                    assert(e[i] == d[i - a.len() - b.len() - c.len()]);
                }
            },
            QuerySet::Python => {
                let a = q(PY_FN_QUERY@, "function"@, true);
                let b = q(PY_CLASS_QUERY@, "class"@, false);
                if i < a.len() {
                    assert(e[i] == a[i]);
                } else {
                    assert(e[i] == b[i - a.len()]);
                }
            },
            QuerySet::Plain => {},
        }
    }
}

} // verus!
