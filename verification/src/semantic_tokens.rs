//! Semantic tokens for Thymeleaf templates.
//!
//! Recognized `th:*` / `data-th-*` attribute **names** are tokens of type
//! `property`; the expression markers `${...}`, `*{...}`, `#{...}`, `@{...}`
//! and `~{...}` inside their **values** are tokens of type `macro`.
//!
//! Tokens are sorted by (line, character), non-overlapping, and
//! delta-encoded. Lengths count UTF-16 code units; a token never spans lines:
//! one that crosses a newline is clipped to its first line.

use vstd::prelude::*;
use vstd::string::*;
use vstd::utf8::encode_utf8;
use crate::document::{doc_attrs, pos_at, views, AttrOccurrence, AttrView, Document};
use crate::text::{
    char_floor, find_char, find_char_spec, is_char_floor, lemma_prefix_bytes_mono, len_utf16,
    prefix_bytes, utf16_len,
};
use crate::thymeleaf::{lookup, lookup_spec};

verus! {

/// Token-type index for recognized `th:*` attribute names.
pub const TYPE_PROPERTY: u32 = 0;
/// Token-type index for Thymeleaf expression markers (`${ }`, `*{ }`, ...).
pub const TYPE_MACRO: u32 = 1;
/// Token-type index for string content; reserved in the legend.
pub const TYPE_STRING: u32 = 2;
/// Token-type index for variables; reserved in the legend.
pub const TYPE_VARIABLE: u32 = 3;

/// The semantic-tokens legend: token-type names indexed by the `TYPE_*`
/// constants, and the (absent) modifiers.
#[derive(Debug)]
pub struct Legend {
    pub token_types: Vec<&'static str>,
    pub token_modifiers: Vec<&'static str>,
}

/// The legend: `property`, `macro`, `string`, `variable`; no modifiers.
pub fn legend() -> (r: Legend)
    ensures
        r.token_types@.len() == 4,
        r.token_types@[TYPE_PROPERTY as int]@ == "property"@,
        r.token_types@[TYPE_MACRO as int]@ == "macro"@,
        r.token_types@[TYPE_STRING as int]@ == "string"@,
        r.token_types@[TYPE_VARIABLE as int]@ == "variable"@,
        r.token_modifiers@.len() == 0,
{
    let mut types: Vec<&'static str> = Vec::new();
    types.push("property");
    types.push("macro");
    types.push("string");
    types.push("variable");
    Legend { token_types: types, token_modifiers: Vec::new() }
}

/// One encoded token, relative to the previous one.
#[derive(Debug, Clone, Copy, PartialEq, Eq, Structural)]
pub struct SemanticToken {
    pub delta_line: u32,
    pub delta_start: u32,
    pub length: u32,
    pub token_type: u32,
    pub token_modifiers_bitset: u32,
}

/// The full-document token stream.
#[derive(Debug)]
pub struct SemanticTokens {
    pub data: Vec<SemanticToken>,
}

/// A token at an absolute position, before delta encoding.
#[derive(Debug, Clone, Copy, PartialEq, Eq, Structural)]
pub struct RawToken {
    pub line: u32,
    pub start: u32,
    pub length: u32,
    pub token_type: u32,
}

// === Specification =========================================================

/// Whether a byte opens an expression marker: `$ * # @ ~`.
pub open spec fn is_marker(c: u8) -> bool {
    c == 0x24u8 || c == 0x2au8 || c == 0x23u8 || c == 0x40u8 || c == 0x7eu8
}

/// Index of the `}` that balances the braces open at `j` (`depth` of them).
pub open spec fn close_bytes(vb: Seq<u8>, j: int, depth: nat) -> Option<int>
    decreases vb.len() - j,
{
    if j < 0 || j >= vb.len() {
        None
    } else if vb[j] == 0x7bu8 {
        close_bytes(vb, j + 1, depth + 1)
    } else if vb[j] == 0x7du8 {
        if depth <= 1 {
            Some(j)
        } else {
            close_bytes(vb, j + 1, (depth - 1) as nat)
        }
    } else {
        close_bytes(vb, j + 1, depth)
    }
}

pub proof fn lemma_close_bytes(vb: Seq<u8>, j: int, depth: nat)
    ensures
        close_bytes(vb, j, depth) matches Some(c) ==> j <= c < vb.len(),
    decreases vb.len() - j,
{
    if 0 <= j < vb.len() {
        if vb[j] == 0x7bu8 {
            lemma_close_bytes(vb, j + 1, depth + 1);
        } else if vb[j] == 0x7du8 {
            if depth > 1 {
                lemma_close_bytes(vb, j + 1, (depth - 1) as nat);
            }
        } else {
            lemma_close_bytes(vb, j + 1, depth);
        }
    }
}

/// The byte spans `[start, end)` (within the value) of the expressions
/// `X{...}` from index `i` on, `X` a marker, braces balanced; an unclosed
/// expression is skipped.
pub open spec fn expr_spans(vb: Seq<u8>, i: int) -> Seq<(int, int)>
    decreases vb.len() - i,
{
    if i < 0 || i >= vb.len() {
        Seq::empty()
    } else if is_marker(vb[i]) && i + 1 < vb.len() && vb[i + 1] == 0x7bu8 {
        match close_bytes(vb, i + 2, 1) {
            Some(end) => {
                proof {
                    lemma_close_bytes(vb, i + 2, 1);
                }
                seq![(i, end + 1)] + expr_spans(vb, end + 1)
            },
            None => expr_spans(vb, i + 1),
        }
    } else {
        expr_spans(vb, i + 1)
    }
}

/// The token for the byte range `[start, end)` of the text `cs`: clamped to
/// the text, moved down to character boundaries, clipped at the first newline;
/// none when empty.
pub open spec fn raw_token(cs: Seq<char>, start: int, end: int, ty: u32) -> Option<RawToken> {
    let total = prefix_bytes(cs, cs.len() as int) as int;
    if end <= start || start >= total {
        None
    } else {
        let e = if end <= total {
            end
        } else {
            total
        };
        let k0 = char_floor(cs, start);
        let k1 = char_floor(cs, e);
        let cut = match find_char_spec(cs.subrange(k0, k1), '\n') {
            Some(p) => k0 + p,
            None => k1,
        };
        if cut <= k0 {
            None
        } else {
            let length = utf16_len(cs.subrange(k0, cut));
            if length == 0 {
                None
            } else {
                let pos = pos_at(cs, start);
                Some(RawToken { line: pos.line, start: pos.character, length: length as u32, token_type: ty })
            }
        }
    }
}

/// Appends the token for `[start, end)`, if any.
pub open spec fn with_token(s: Seq<RawToken>, cs: Seq<char>, start: int, end: int, ty: u32) -> Seq<RawToken> {
    match raw_token(cs, start, end, ty) {
        Some(t) => s.push(t),
        None => s,
    }
}

/// The marker tokens of the given value spans. A span whose absolute end would
/// not fit in a machine word yields none.
pub open spec fn macro_tokens(s: Seq<RawToken>, cs: Seq<char>, base: int, spans: Seq<(int, int)>) -> Seq<RawToken>
    decreases spans.len(),
{
    if spans.len() == 0 {
        s
    } else {
        let prev = macro_tokens(s, cs, base, spans.drop_last());
        let sp = spans.last();
        if base + sp.1 <= usize::MAX {
            with_token(prev, cs, base + sp.0, base + sp.1, TYPE_MACRO)
        } else {
            prev
        }
    }
}

/// The tokens of the attributes, in attribute order: for each recognized
/// attribute, its name, then its expression markers.
pub open spec fn raw_tokens(cs: Seq<char>, attrs: Seq<AttrView>) -> Seq<RawToken>
    decreases attrs.len(),
{
    if attrs.len() == 0 {
        Seq::empty()
    } else {
        let prev = raw_tokens(cs, attrs.drop_last());
        let a = attrs.last();
        if lookup_spec(a.name) is None {
            prev
        } else {
            let named = with_token(prev, cs, a.name_range.start as int, a.name_range.end as int, TYPE_PROPERTY);
            macro_tokens(named, cs, a.value_range.start as int, expr_spans(encode_utf8(a.value), 0))
        }
    }
}

/// Position order of tokens.
pub open spec fn tok_le(a: RawToken, b: RawToken) -> bool {
    a.line < b.line || (a.line == b.line && a.start <= b.start)
}

/// Where a stable insertion of `x` into `s` goes.
pub open spec fn tok_insert_pos(s: Seq<RawToken>, x: RawToken) -> int
    decreases s.len(),
{
    if s.len() == 0 {
        0
    } else if tok_le(s.last(), x) {
        s.len() as int
    } else {
        tok_insert_pos(s.drop_last(), x)
    }
}

/// `s` stably sorted by (line, start).
pub open spec fn sort_tokens(s: Seq<RawToken>) -> Seq<RawToken>
    decreases s.len(),
{
    if s.len() == 0 {
        s
    } else {
        let sorted = sort_tokens(s.drop_last());
        let p = tok_insert_pos(sorted, s.last());
        sorted.take(p).push(s.last()) + sorted.skip(p)
    }
}

/// Tokens in position order.
pub open spec fn tokens_sorted(s: Seq<RawToken>) -> bool {
    forall|i: int, j: int| 0 <= i < j < s.len() ==> tok_le(#[trigger] s[i], #[trigger] s[j])
}

/// Each token ends before the next one on its line starts.
pub open spec fn tokens_disjoint(s: Seq<RawToken>) -> bool {
    forall|i: int|
        0 <= i < s.len() - 1 && #[trigger] s[i].line == s[i + 1].line ==> s[i].start + s[i].length
            <= s[i + 1].start
}

/// The tokens kept from `s`: each token that overlaps the last kept one on
/// its line is dropped.
pub open spec fn dedup_spec(s: Seq<RawToken>) -> Seq<RawToken>
    decreases s.len(),
{
    if s.len() == 0 {
        s
    } else {
        let kept = dedup_spec(s.drop_last());
        let t = s.last();
        if kept.len() > 0 && kept.last().line == t.line && t.start < kept.last().start
            + kept.last().length {
            kept
        } else {
            kept.push(t)
        }
    }
}

/// Delta encoding: each token relative to the previous one (the first
/// relative to line 0, character 0); the start is relative only on the same
/// line.
pub open spec fn delta_spec(s: Seq<RawToken>) -> Seq<SemanticToken> {
    Seq::new(
        s.len(),
        |i: int|
            {
                let pl: int = if i == 0 {
                    0
                } else {
                    s[i - 1].line as int
                };
                let ps: int = if i == 0 {
                    0
                } else {
                    s[i - 1].start as int
                };
                let dl = s[i].line - pl;
                SemanticToken {
                    delta_line: dl as u32,
                    delta_start: (if dl == 0 {
                        s[i].start - ps
                    } else {
                        s[i].start as int
                    }) as u32,
                    length: s[i].length,
                    token_type: s[i].token_type,
                    token_modifiers_bitset: 0,
                }
            },
    )
}

/// The absolute tokens of a document, sorted and without overlaps.
pub open spec fn tokens_spec(cs: Seq<char>, attrs: Seq<AttrView>) -> Seq<RawToken> {
    dedup_spec(sort_tokens(raw_tokens(cs, attrs)))
}

// === Proofs ================================================================

proof fn lemma_tok_insert_pos(s: Seq<RawToken>, x: RawToken)
    requires
        tokens_sorted(s),
    ensures
        0 <= tok_insert_pos(s, x) <= s.len(),
        forall|i: int| 0 <= i < tok_insert_pos(s, x) ==> tok_le(#[trigger] s[i], x),
        forall|i: int| tok_insert_pos(s, x) <= i < s.len() ==> !tok_le(#[trigger] s[i], x),
    decreases s.len(),
{
    if s.len() > 0 {
        let d = s.drop_last();
        assert(tokens_sorted(d)) by {
            assert forall|i: int, j: int| 0 <= i < j < d.len() implies tok_le(#[trigger] d[i], #[trigger] d[j]) by {
                assert(d[i] == s[i] && d[j] == s[j]);
            }
        }
        lemma_tok_insert_pos(d, x);
        if !tok_le(s.last(), x) {
            assert forall|i: int| 0 <= i < tok_insert_pos(s, x) implies tok_le(#[trigger] s[i], x) by {
                assert(s[i] == d[i]);
            }
            assert forall|i: int| tok_insert_pos(s, x) <= i < s.len() implies !tok_le(#[trigger] s[i], x) by {
                if i < s.len() - 1 {
                    assert(s[i] == d[i]);
                }
            }
        } else {
            assert forall|i: int| 0 <= i < tok_insert_pos(s, x) implies tok_le(#[trigger] s[i], x) by {
                if i < s.len() - 1 {
                    assert(tok_le(s[i], s[s.len() - 1]));
                }
            }
        }
    }
}

proof fn lemma_sort_tokens(s: Seq<RawToken>)
    ensures
        tokens_sorted(sort_tokens(s)),
        sort_tokens(s).len() == s.len(),
    decreases s.len(),
{
    if s.len() > 0 {
        let sorted = sort_tokens(s.drop_last());
        lemma_sort_tokens(s.drop_last());
        let x = s.last();
        lemma_tok_insert_pos(sorted, x);
        let p = tok_insert_pos(sorted, x);
        let r = sorted.take(p).push(x) + sorted.skip(p);
        assert forall|i: int, j: int| 0 <= i < j < r.len() implies tok_le(#[trigger] r[i], #[trigger] r[j]) by {
            if j < p {
                assert(r[i] == sorted[i] && r[j] == sorted[j]);
            } else if j == p {
                assert(r[i] == sorted[i] && r[j] == x);
            } else if i < p {
                assert(r[i] == sorted[i] && r[j] == sorted[j - 1]);
            } else if i == p {
                assert(r[i] == x && r[j] == sorted[j - 1]);
                assert(!tok_le(sorted[j - 1], x));
            } else {
                assert(r[i] == sorted[i - 1] && r[j] == sorted[j - 1]);
            }
        }
    }
}

/// Character floors are monotone in the byte offset.
proof fn lemma_char_floor_mono(cs: Seq<char>, a: int, b: int, ka: int, kb: int)
    requires
        a <= b,
        is_char_floor(cs, a, ka),
        is_char_floor(cs, b, kb),
    ensures
        ka <= kb,
{
    if ka > kb {
        lemma_prefix_bytes_mono(cs, kb + 1, ka);
    }
}

/// Decoding the delta encoding of sorted tokens recovers every token: the
/// first relative to (0, 0), each later one relative to its predecessor,
/// its character relative only on the same line.
pub proof fn law_delta_decodes(s: Seq<RawToken>)
    requires
        tokens_sorted(s),
    ensures
        delta_spec(s).len() == s.len(),
        s.len() > 0 ==> s[0].line == delta_spec(s)[0].delta_line && s[0].start == delta_spec(s)[0].delta_start,
        forall|i: int|
            0 < i < s.len() ==> #[trigger] s[i].line == s[i - 1].line + delta_spec(s)[i].delta_line,
        forall|i: int|
            0 < i < s.len() && delta_spec(s)[i].delta_line == 0 ==> #[trigger] s[i].start == s[i - 1].start
                + delta_spec(s)[i].delta_start,
        forall|i: int|
            0 < i < s.len() && delta_spec(s)[i].delta_line != 0 ==> #[trigger] s[i].start
                == delta_spec(s)[i].delta_start,
        forall|i: int|
            0 <= i < s.len() ==> #[trigger] delta_spec(s)[i].length == s[i].length
                && delta_spec(s)[i].token_type == s[i].token_type,
{
    assert forall|i: int| 0 < i < s.len() implies #[trigger] s[i].line == s[i - 1].line + delta_spec(s)[i].delta_line
        && (delta_spec(s)[i].delta_line == 0 ==> s[i].start == s[i - 1].start + delta_spec(s)[i].delta_start)
        && (delta_spec(s)[i].delta_line != 0 ==> s[i].start == delta_spec(s)[i].delta_start) by {
        assert(tok_le(s[i - 1], s[i]));
    }
}

/// A token the stream can hold: not empty, and typed as an attribute name
/// or an expression marker.
pub open spec fn good_token(t: RawToken) -> bool {
    t.length > 0 && (t.token_type == TYPE_PROPERTY || t.token_type == TYPE_MACRO)
}

pub open spec fn all_good(s: Seq<RawToken>) -> bool {
    forall|i: int| 0 <= i < s.len() ==> good_token(#[trigger] s[i])
}

proof fn lemma_raw_token_good(cs: Seq<char>, start: int, end: int, ty: u32)
    requires
        crate::document::text_fits(cs),
        0 <= start,
        ty == TYPE_PROPERTY || ty == TYPE_MACRO,
    ensures
        raw_token(cs, start, end, ty) matches Some(t) ==> good_token(t),
{
    let total = prefix_bytes(cs, cs.len() as int) as int;
    if !(end <= start || start >= total) {
        let e = if end <= total {
            end
        } else {
            total
        };
        crate::text::lemma_char_floor(cs, start, 0);
        crate::text::lemma_char_floor(cs, e, 0);
        let k0 = char_floor(cs, start);
        let k1 = char_floor(cs, e);
        lemma_char_floor_mono(cs, start, e, k0, k1);
        crate::text::lemma_find_char_range(cs.subrange(k0, k1), '\n');
        let cut = match find_char_spec(cs.subrange(k0, k1), '\n') {
            Some(p) => k0 + p,
            None => k1,
        };
        if cut > k0 {
            crate::document::lemma_utf16_le_bytes(cs, k0, cut);
            lemma_prefix_bytes_mono(cs, cut, cs.len() as int);
            crate::text::lemma_prefix_bytes_all(cs);
        }
    }
}

proof fn lemma_with_token_good(s: Seq<RawToken>, cs: Seq<char>, start: int, end: int, ty: u32)
    requires
        all_good(s),
        crate::document::text_fits(cs),
        0 <= start,
        ty == TYPE_PROPERTY || ty == TYPE_MACRO,
    ensures
        all_good(with_token(s, cs, start, end, ty)),
{
    lemma_raw_token_good(cs, start, end, ty);
    if let Some(t) = raw_token(cs, start, end, ty) {
        assert forall|i: int| 0 <= i < s.push(t).len() implies good_token(#[trigger] s.push(t)[i]) by {
            if i < s.len() {
                assert(s.push(t)[i] == s[i]);
            }
        }
    }
}

proof fn lemma_expr_spans_start(vb: Seq<u8>, i: int)
    ensures
        forall|k: int| 0 <= k < expr_spans(vb, i).len() ==> (#[trigger] expr_spans(vb, i)[k]).0 >= 0,
    decreases vb.len() - i,
{
    if 0 <= i < vb.len() {
        if is_marker(vb[i]) && i + 1 < vb.len() && vb[i + 1] == 0x7bu8 {
            lemma_close_bytes(vb, i + 2, 1);
            match close_bytes(vb, i + 2, 1) {
                Some(end) => {
                    lemma_expr_spans_start(vb, end + 1);
                    let rest = expr_spans(vb, end + 1);
                    assert(expr_spans(vb, i) == seq![(i, end + 1)] + rest);
                    assert forall|k: int| 0 <= k < expr_spans(vb, i).len() implies (#[trigger] expr_spans(vb, i)[k]).0 >= 0 by {
                        if k > 0 {
                            assert(expr_spans(vb, i)[k] == rest[k - 1]);
                        } else {
                            assert(expr_spans(vb, i)[0] == (i, end + 1));
                        }
                    }
                },
                None => {
                    lemma_expr_spans_start(vb, i + 1);
                    assert(expr_spans(vb, i) == expr_spans(vb, i + 1));
                },
            }
        } else {
            lemma_expr_spans_start(vb, i + 1);
            assert(expr_spans(vb, i) == expr_spans(vb, i + 1));
        }
    }
}

proof fn lemma_macro_tokens_good(s: Seq<RawToken>, cs: Seq<char>, base: int, spans: Seq<(int, int)>)
    requires
        all_good(s),
        crate::document::text_fits(cs),
        0 <= base,
        forall|k: int| 0 <= k < spans.len() ==> (#[trigger] spans[k]).0 >= 0,
    ensures
        all_good(macro_tokens(s, cs, base, spans)),
    decreases spans.len(),
{
    if spans.len() > 0 {
        let sp = spans.last();
        assert(sp.0 >= 0);
        let d = spans.drop_last();
        assert forall|k: int| 0 <= k < d.len() implies (#[trigger] d[k]).0 >= 0 by {
            assert(d[k] == spans[k]);
        }
        lemma_macro_tokens_good(s, cs, base, d);
        if base + sp.1 <= usize::MAX {
            lemma_with_token_good(macro_tokens(s, cs, base, d), cs, base + sp.0, base + sp.1, TYPE_MACRO);
        }
    }
}

proof fn lemma_raw_tokens_good(cs: Seq<char>, attrs: Seq<AttrView>)
    requires
        crate::document::text_fits(cs),
    ensures
        all_good(raw_tokens(cs, attrs)),
    decreases attrs.len(),
{
    if attrs.len() > 0 {
        lemma_raw_tokens_good(cs, attrs.drop_last());
        let a = attrs.last();
        if lookup_spec(a.name) is Some {
            let prev = raw_tokens(cs, attrs.drop_last());
            lemma_with_token_good(prev, cs, a.name_range.start as int, a.name_range.end as int, TYPE_PROPERTY);
            let named = with_token(prev, cs, a.name_range.start as int, a.name_range.end as int, TYPE_PROPERTY);
            lemma_expr_spans_start(encode_utf8(a.value), 0);
            lemma_macro_tokens_good(named, cs, a.value_range.start as int, expr_spans(encode_utf8(a.value), 0));
        }
    }
}

proof fn lemma_sort_tokens_good(s: Seq<RawToken>)
    requires
        all_good(s),
    ensures
        all_good(sort_tokens(s)),
    decreases s.len(),
{
    if s.len() > 0 {
        let s1 = s.drop_last();
        assert forall|i: int| 0 <= i < s1.len() implies good_token(#[trigger] s1[i]) by {
            assert(s1[i] == s[i]);
        }
        lemma_sort_tokens_good(s1);
        lemma_sort_tokens(s1);
        let sorted = sort_tokens(s1);
        let x = s.last();
        assert(good_token(s[s.len() - 1]));
        lemma_tok_insert_pos(sorted, x);
        let p = tok_insert_pos(sorted, x);
        let r = sorted.take(p).push(x) + sorted.skip(p);
        assert forall|i: int| 0 <= i < r.len() implies good_token(#[trigger] r[i]) by {
            if i < p {
                assert(r[i] == sorted[i]);
            } else if i > p {
                assert(r[i] == sorted[i - 1]);
            }
        }
    }
}

proof fn lemma_dedup_good(s: Seq<RawToken>)
    requires
        all_good(s),
    ensures
        all_good(dedup_spec(s)),
    decreases s.len(),
{
    if s.len() > 0 {
        let s1 = s.drop_last();
        assert forall|i: int| 0 <= i < s1.len() implies good_token(#[trigger] s1[i]) by {
            assert(s1[i] == s[i]);
        }
        lemma_dedup_good(s1);
        let kept = dedup_spec(s1);
        let t = s.last();
        assert(good_token(s[s.len() - 1]));
        assert forall|i: int| 0 <= i < kept.push(t).len() implies good_token(#[trigger] kept.push(t)[i]) by {
            if i < kept.len() {
                assert(kept.push(t)[i] == kept[i]);
            }
        }
    }
}

/// Dropping overlapping tokens from sorted tokens leaves them sorted and
/// disjoint, and every token kept comes from the input.
proof fn lemma_dedup_sorted(s: Seq<RawToken>)
    requires
        tokens_sorted(s),
    ensures
        tokens_sorted(dedup_spec(s)),
        tokens_disjoint(dedup_spec(s)),
        forall|i: int| 0 <= i < dedup_spec(s).len() ==> s.contains(#[trigger] dedup_spec(s)[i]),
    decreases s.len(),
{
    if s.len() > 0 {
        let s1 = s.drop_last();
        assert(tokens_sorted(s1)) by {
            assert forall|i: int, j: int| 0 <= i < j < s1.len() implies tok_le(#[trigger] s1[i], #[trigger] s1[j]) by {
                assert(s1[i] == s[i] && s1[j] == s[j]);
            }
        }
        lemma_dedup_sorted(s1);
        let kept = dedup_spec(s1);
        let t = s.last();
        assert forall|i: int| 0 <= i < kept.len() implies tok_le(#[trigger] kept[i], t) && s.contains(kept[i]) by {
            let j = choose|j: int| 0 <= j < s1.len() && s1[j] == kept[i];
            assert(s[j] == s1[j]);
            assert(tok_le(s[j], s[s.len() - 1]));
        }
        if !(kept.len() > 0 && kept.last().line == t.line && t.start < kept.last().start + kept.last().length) {
            let r = kept.push(t);
            assert forall|a: int, b: int| 0 <= a < b < r.len() implies tok_le(#[trigger] r[a], #[trigger] r[b]) by {
                if b == kept.len() {
                    assert(r[a] == kept[a]);
                } else {
                    assert(r[a] == kept[a] && r[b] == kept[b]);
                }
            }
            assert forall|a: int| 0 <= a < r.len() - 1 && #[trigger] r[a].line == r[a + 1].line implies r[a].start
                + r[a].length <= r[a + 1].start by {
                if a + 1 == kept.len() {
                    assert(r[a] == kept.last());
                } else {
                    assert(r[a] == kept[a] && r[a + 1] == kept[a + 1]);
                }
            }
            assert forall|i: int| 0 <= i < r.len() implies s.contains(#[trigger] r[i]) by {
                if i < kept.len() {
                    assert(r[i] == kept[i]);
                } else {
                    assert(s[s.len() - 1] == t);
                }
            }
        }
    }
}

proof fn lemma_strict_order(s: Seq<RawToken>)
    requires
        tokens_sorted(s),
        tokens_disjoint(s),
        all_good(s),
    ensures
        forall|i: int|
            0 <= i < s.len() - 1 ==> (#[trigger] s[i]).line < s[i + 1].line || (s[i].line == s[i
                + 1].line && s[i].start < s[i + 1].start),
        forall|i: int|
            0 < i < s.len() ==> (#[trigger] delta_spec(s)[i]).delta_line > 0
                || delta_spec(s)[i].delta_start > 0,
{
    law_delta_decodes(s);
    assert forall|i: int| 0 <= i < s.len() - 1 implies (#[trigger] s[i]).line < s[i + 1].line || (s[i].line
        == s[i + 1].line && s[i].start < s[i + 1].start) by {
        assert(tok_le(s[i], s[i + 1]));
        assert(good_token(s[i]));
    }
    assert forall|i: int| 0 < i < s.len() implies (#[trigger] delta_spec(s)[i]).delta_line > 0
        || delta_spec(s)[i].delta_start > 0 by {
        assert(tok_le(s[i - 1], s[i]));
        assert(good_token(s[i - 1]));
        assert(s[(i - 1) + 1] == s[i]);
        assert(s[i].line == s[i - 1].line + delta_spec(s)[i].delta_line);
        if delta_spec(s)[i].delta_line == 0 {
            assert(s[i].start == s[i - 1].start + delta_spec(s)[i].delta_start);
        }
    }
}

/// The tokens of a document come strictly in position order, each one
/// non-empty and typed as a recognized attribute name or an expression
/// marker; so every decoded token after the first moves forward.
pub proof fn law_tokens_strictly_increase(cs: Seq<char>, attrs: Seq<AttrView>)
    requires
        crate::document::text_fits(cs),
    ensures
        forall|i: int|
            0 <= i < tokens_spec(cs, attrs).len() - 1 ==> (#[trigger] tokens_spec(cs, attrs)[i]).line
                < tokens_spec(cs, attrs)[i + 1].line || (tokens_spec(cs, attrs)[i].line == tokens_spec(
                cs,
                attrs,
            )[i + 1].line && tokens_spec(cs, attrs)[i].start < tokens_spec(cs, attrs)[i + 1].start),
        all_good(tokens_spec(cs, attrs)),
        forall|i: int|
            0 < i < tokens_spec(cs, attrs).len() ==> (#[trigger] delta_spec(tokens_spec(cs, attrs))[i]).delta_line
                > 0 || delta_spec(tokens_spec(cs, attrs))[i].delta_start > 0,
{
    lemma_raw_tokens_good(cs, attrs);
    lemma_sort_tokens_good(raw_tokens(cs, attrs));
    lemma_dedup_good(sort_tokens(raw_tokens(cs, attrs)));
    lemma_sort_tokens(raw_tokens(cs, attrs));
    lemma_dedup_sorted(sort_tokens(raw_tokens(cs, attrs)));
    lemma_strict_order(tokens_spec(cs, attrs));
}

/// Token `t` comes from a recognized attribute of `attrs`: an attribute-name
/// token is the token of that attribute's name.
pub open spec fn from_recognized(cs: Seq<char>, attrs: Seq<AttrView>, t: RawToken) -> bool {
    exists|i: int|
        0 <= i < attrs.len() && lookup_spec(#[trigger] attrs[i].name) is Some && (t.token_type
            == TYPE_PROPERTY ==> raw_token(
            cs,
            attrs[i].name_range.start as int,
            attrs[i].name_range.end as int,
            TYPE_PROPERTY,
        ) == Some(t))
}

proof fn lemma_from_prefix(cs: Seq<char>, attrs: Seq<AttrView>, t: RawToken)
    requires
        attrs.len() > 0,
        from_recognized(cs, attrs.drop_last(), t),
    ensures
        from_recognized(cs, attrs, t),
{
    let a1 = attrs.drop_last();
    let i = choose|i: int|
        0 <= i < a1.len() && lookup_spec(#[trigger] a1[i].name) is Some && (t.token_type == TYPE_PROPERTY
            ==> raw_token(cs, a1[i].name_range.start as int, a1[i].name_range.end as int, TYPE_PROPERTY)
            == Some(t));
    assert(attrs[i] == a1[i]);
}

proof fn lemma_macro_tokens_from(
    s: Seq<RawToken>,
    cs: Seq<char>,
    attrs: Seq<AttrView>,
    k: int,
    base: int,
    spans: Seq<(int, int)>,
)
    requires
        forall|j: int| 0 <= j < s.len() ==> from_recognized(cs, attrs, #[trigger] s[j]),
        0 <= k < attrs.len(),
        lookup_spec(attrs[k].name) is Some,
    ensures
        forall|j: int|
            0 <= j < macro_tokens(s, cs, base, spans).len() ==> from_recognized(
                cs,
                attrs,
                #[trigger] macro_tokens(s, cs, base, spans)[j],
            ),
    decreases spans.len(),
{
    if spans.len() > 0 {
        let d = spans.drop_last();
        lemma_macro_tokens_from(s, cs, attrs, k, base, d);
        let prev = macro_tokens(s, cs, base, d);
        let sp = spans.last();
        if base + sp.1 <= usize::MAX {
            if let Some(t) = raw_token(cs, base + sp.0, base + sp.1, TYPE_MACRO) {
                assert forall|j: int| 0 <= j < prev.push(t).len() implies from_recognized(
                    cs,
                    attrs,
                    #[trigger] prev.push(t)[j],
                ) by {
                    if j < prev.len() {
                        assert(prev.push(t)[j] == prev[j]);
                    } else {
                        assert(lookup_spec(attrs[k].name) is Some);
                    }
                }
            }
        }
    }
}

proof fn lemma_raw_tokens_from(cs: Seq<char>, attrs: Seq<AttrView>)
    ensures
        forall|j: int|
            0 <= j < raw_tokens(cs, attrs).len() ==> from_recognized(
                cs,
                attrs,
                #[trigger] raw_tokens(cs, attrs)[j],
            ),
    decreases attrs.len(),
{
    if attrs.len() > 0 {
        let a1 = attrs.drop_last();
        lemma_raw_tokens_from(cs, a1);
        let prev = raw_tokens(cs, a1);
        assert forall|j: int| 0 <= j < prev.len() implies from_recognized(cs, attrs, #[trigger] prev[j]) by {
            lemma_from_prefix(cs, attrs, prev[j]);
        }
        let a = attrs.last();
        let k = attrs.len() - 1;
        assert(attrs[k] == a);
        if lookup_spec(a.name) is Some {
            let named = with_token(prev, cs, a.name_range.start as int, a.name_range.end as int, TYPE_PROPERTY);
            assert forall|j: int| 0 <= j < named.len() implies from_recognized(cs, attrs, #[trigger] named[j]) by {
                if j < prev.len() {
                    match raw_token(cs, a.name_range.start as int, a.name_range.end as int, TYPE_PROPERTY) {
                        Some(t) => assert(named[j] == prev[j]),
                        None => {},
                    }
                } else {
                    assert(lookup_spec(attrs[k].name) is Some);
                }
            }
            lemma_macro_tokens_from(
                named,
                cs,
                attrs,
                k,
                a.value_range.start as int,
                expr_spans(encode_utf8(a.value), 0),
            );
        }
    }
}

proof fn lemma_sort_tokens_members(s: Seq<RawToken>)
    ensures
        forall|i: int| 0 <= i < sort_tokens(s).len() ==> s.contains(#[trigger] sort_tokens(s)[i]),
    decreases s.len(),
{
    if s.len() > 0 {
        let s1 = s.drop_last();
        lemma_sort_tokens_members(s1);
        lemma_sort_tokens(s1);
        let sorted = sort_tokens(s1);
        let x = s.last();
        lemma_tok_insert_pos(sorted, x);
        let p = tok_insert_pos(sorted, x);
        let r = sorted.take(p).push(x) + sorted.skip(p);
        assert forall|i: int| 0 <= i < r.len() implies s.contains(#[trigger] r[i]) by {
            if i < p {
                assert(r[i] == sorted[i]);
                let j = choose|j: int| 0 <= j < s1.len() && s1[j] == sorted[i];
                assert(s[j] == s1[j]);
            } else if i == p {
                assert(s[s.len() - 1] == x);
            } else {
                assert(r[i] == sorted[i - 1]);
                let j = choose|j: int| 0 <= j < s1.len() && s1[j] == sorted[i - 1];
                assert(s[j] == s1[j]);
            }
        }
    }
}

/// Every token of a document comes from a recognized `th:` attribute, an
/// attribute-name token lying exactly on that attribute's name; no decoded
/// token carries modifiers.
pub proof fn law_tokens_from_recognized_attributes(cs: Seq<char>, attrs: Seq<AttrView>)
    ensures
        forall|i: int|
            0 <= i < tokens_spec(cs, attrs).len() ==> from_recognized(
                cs,
                attrs,
                #[trigger] tokens_spec(cs, attrs)[i],
            ),
        forall|i: int|
            0 <= i < tokens_spec(cs, attrs).len() ==> (#[trigger] delta_spec(tokens_spec(cs, attrs))[i]).token_modifiers_bitset
                == 0,
{
    let raw = raw_tokens(cs, attrs);
    lemma_raw_tokens_from(cs, attrs);
    lemma_sort_tokens_members(raw);
    lemma_sort_tokens(raw);
    lemma_dedup_sorted(sort_tokens(raw));
    let t = tokens_spec(cs, attrs);
    assert forall|i: int| 0 <= i < t.len() implies from_recognized(cs, attrs, #[trigger] t[i]) by {
        let j = choose|j: int| 0 <= j < sort_tokens(raw).len() && sort_tokens(raw)[j] == t[i];
        let m = choose|m: int| 0 <= m < raw.len() && raw[m] == sort_tokens(raw)[j];
        assert(from_recognized(cs, attrs, raw[m]));
    }
}

// === Implementation ========================================================

/// Locates the expression spans `X{...}` within `value`, returning their
/// absolute byte ranges in the document; `value_start` is the byte offset of
/// `value` in the text. A span whose end would not fit in a machine word is
/// left out.
fn expression_spans(value: &str, value_start: usize) -> (r: Vec<(usize, usize)>)
    ensures
        r@.len() <= expr_spans(value.spec_bytes(), 0).len(),
        forall|k: int| 0 <= k < r@.len() ==> #[trigger] r@[k].0 == value_start + expr_spans(value.spec_bytes(), 0)[k].0,
        forall|k: int| 0 <= k < r@.len() ==> #[trigger] r@[k].1 == value_start + expr_spans(value.spec_bytes(), 0)[k].1,
        forall|k: int| r@.len() <= k < expr_spans(value.spec_bytes(), 0).len() ==> value_start + #[trigger] expr_spans(value.spec_bytes(), 0)[k].1 > usize::MAX,
{
    let bytes = value.as_bytes();
    let n = bytes.len();
    let ghost vb = bytes@;
    let ghost all = expr_spans(vb, 0);
    let mut spans: Vec<(usize, usize)> = Vec::new();
    let ghost mut done: Seq<(int, int)> = Seq::empty();
    let mut i: usize = 0;
    while i < n
        invariant
            n == vb.len(),
            vb == bytes@,
            vb == value.spec_bytes(),
            i <= n,
            all == expr_spans(vb, 0),
            all == done + expr_spans(vb, i as int),
            spans@.len() == done.len(),
            forall|k: int| 0 <= k < done.len() ==> #[trigger] spans@[k].0 == value_start + done[k].0,
            forall|k: int| 0 <= k < done.len() ==> #[trigger] spans@[k].1 == value_start + done[k].1,
            forall|k: int| 0 <= k < done.len() ==> done[k].1 <= i,
        ensures
            spans@.len() <= all.len(),
            forall|k: int| 0 <= k < spans@.len() ==> #[trigger] spans@[k].0 == value_start + all[k].0,
            forall|k: int| 0 <= k < spans@.len() ==> #[trigger] spans@[k].1 == value_start + all[k].1,
            forall|k: int| spans@.len() <= k < all.len() ==> value_start + #[trigger] all[k].1 > usize::MAX,
        decreases n - i,
    {
        let c = bytes[i];
        let is_marker = c == 0x24 || c == 0x2a || c == 0x23 || c == 0x40 || c == 0x7e;
        if is_marker && i + 1 < n && bytes[i + 1] == 0x7b {
            // The closing brace, honoring nesting.
            let mut depth: usize = 1;
            let mut j = i + 2;
            let mut closed: Option<usize> = None;
            while j < n
                invariant_except_break
                    closed is None,
                invariant
                    i + 2 <= j <= n,
                    n == vb.len(),
                    vb == bytes@,
                    1 <= depth <= j - i,
                    close_bytes(vb, i + 2, 1) == close_bytes(vb, j as int, depth as nat),
                ensures
                    closed matches Some(e) ==> close_bytes(vb, i + 2, 1) == Some(e as int) && i + 2 <= e < n,
                    closed is None ==> close_bytes(vb, i + 2, 1) is None,
                decreases n - j,
            {
                if bytes[j] == 0x7b {
                    depth += 1;
                } else if bytes[j] == 0x7d {
                    if depth <= 1 {
                        closed = Some(j);
                        break;
                    }
                    depth -= 1;
                }
                j += 1;
            }
            if let Some(end) = closed {
                proof {
                    assert(expr_spans(vb, i as int) =~= seq![(i as int, end + 1)] + expr_spans(vb, end + 1));
                }
                if end + 1 > usize::MAX - value_start {
                    proof {
                        assert(all[done.len() as int] == (i as int, end + 1));
                        assert forall|k: int| spans@.len() <= k < all.len() implies value_start
                            + #[trigger] all[k].1 > usize::MAX by {
                            // Later spans end further right.
                            if k > done.len() {
                                lemma_spans_increase(vb, end + 1, k - done.len() - 1);
                            }
                        }
                    }
                    return spans;
                }
                spans.push((value_start + i, value_start + end + 1));
                proof {
                    done = done.push((i as int, end + 1));
                    assert(all =~= done + expr_spans(vb, end + 1));
                }
                i = end + 1;
                continue;
            }
        }
        proof {
            assert(expr_spans(vb, i as int) == expr_spans(vb, i + 1));
        }
        i += 1;
    }
    spans
}

/// Spans found from `i` on end at or after `i`, and later ones further right.
proof fn lemma_spans_increase(vb: Seq<u8>, i: int, k: int)
    requires
        0 <= i,
        0 <= k < expr_spans(vb, i).len(),
    ensures
        expr_spans(vb, i)[k].1 > i,
    decreases vb.len() - i,
{
    if i < vb.len() {
        if is_marker(vb[i]) && i + 1 < vb.len() && vb[i + 1] == 0x7bu8 {
            match close_bytes(vb, i + 2, 1) {
                Some(end) => {
                    lemma_close_bytes(vb, i + 2, 1);
                    let rest = expr_spans(vb, end + 1);
                    assert(expr_spans(vb, i) == seq![(i, end + 1)] + rest);
                    if k > 0 {
                        lemma_spans_increase(vb, end + 1, k - 1);
                    }
                },
                None => {
                    lemma_spans_increase(vb, i + 1, k);
                },
            }
        } else {
            lemma_spans_increase(vb, i + 1, k);
        }
    }
}

/// Appends the single-line token for the byte range `[start, end)`, if any.
fn push_token(doc: &Document, out: &mut Vec<RawToken>, start: usize, end: usize, token_type: u32)
    ensures
        final(out)@ == with_token(old(out)@, doc.chars_view(), start as int, end as int, token_type),
{
    let (cs, starts, _) = doc.parts();
    let n = cs.len();
    let total = starts[n];
    if end <= start || start >= total {
        return;
    }
    let e = if end <= total {
        end
    } else {
        total
    };
    let k0 = crate::text::floor_char(cs, starts, start);
    let k1 = crate::text::floor_char(cs, starts, e);
    proof {
        lemma_char_floor_mono(cs@, start as int, e as int, k0 as int, k1 as int);
    }
    // Clip to the start line if the span crosses a newline.
    let cut = match find_char(cs, k0, k1, '\n') {
        Some(p) => p,
        None => k1,
    };
    if cut <= k0 {
        return;
    }
    let mut length: u32 = 0;
    let mut j = k0;
    while j < cut
        invariant
            k0 <= j <= cut <= n == cs@.len(),
            prefix_bytes(cs@, n as int) <= u32::MAX,
            length as nat == utf16_len(cs@.subrange(k0 as int, j as int)),
        decreases cut - j,
    {
        proof {
            assert(cs@.subrange(k0 as int, j + 1).drop_last() =~= cs@.subrange(k0 as int, j as int));
            crate::document::lemma_utf16_le_bytes(cs@, k0 as int, j + 1);
            lemma_prefix_bytes_mono(cs@, j + 1, n as int);
        }
        length = length + len_utf16(cs[j]);
        j += 1;
    }
    if length == 0 {
        return;
    }
    let pos = doc.position_at(start);
    out.push(RawToken { line: pos.line, start: pos.character, length, token_type });
}

/// Removes tokens that overlap the last kept token on their line. The input
/// must be sorted by (line, start).
fn dedup_overlaps(raw: Vec<RawToken>) -> (r: Vec<RawToken>)
    requires
        tokens_sorted(raw@),
    ensures
        r@ == dedup_spec(raw@),
        tokens_sorted(r@),
        tokens_disjoint(r@),
{
    let mut out: Vec<RawToken> = Vec::new();
    let mut i: usize = 0;
    while i < raw.len()
        invariant
            i <= raw@.len(),
            tokens_sorted(raw@),
            out@ == dedup_spec(raw@.take(i as int)),
            tokens_sorted(out@),
            tokens_disjoint(out@),
            out@.len() > 0 ==> forall|k: int| i <= k < raw@.len() ==> tok_le(out@.last(), #[trigger] raw@[k]),
        decreases raw@.len() - i,
    {
        let tok = raw[i];
        proof {
            assert(raw@.take(i + 1).drop_last() =~= raw@.take(i as int));
            assert(raw@.take(i + 1).last() == tok);
        }
        let n = out.len();
        let overlaps = n > 0 && out[n - 1].line == tok.line && (tok.start as u64) < (out[n - 1].start as u64)
            + (out[n - 1].length as u64);
        if !overlaps {
            let ghost before = out@;
            out.push(tok);
            proof {
                assert forall|a: int, b: int| 0 <= a < b < out@.len() implies tok_le(#[trigger] out@[a], #[trigger] out@[b]) by {
                    if b == out@.len() - 1 && a < b {
                        assert(tok_le(before.last(), tok));
                        assert(before[a] == out@[a]);
                        if a < before.len() - 1 {
                            assert(tok_le(before[a], before[before.len() - 1]));
                        }
                    } else {
                        assert(before[a] == out@[a] && before[b] == out@[b]);
                    }
                }
                assert forall|a: int| 0 <= a < out@.len() - 1 && #[trigger] out@[a].line == out@[a + 1].line implies out@[a].start + out@[a].length <= out@[a + 1].start by {
                    if a == out@.len() - 2 {
                        assert(out@[a] == before.last());
                    } else {
                        assert(before[a] == out@[a] && before[a + 1] == out@[a + 1]);
                    }
                }
                assert forall|k: int| i + 1 <= k < raw@.len() implies tok_le(out@.last(), #[trigger] raw@[k]) by {
                    assert(tok_le(raw@[i as int], raw@[k]));
                }
            }
        }
        i += 1;
    }
    proof {
        assert(raw@.take(raw@.len() as int) =~= raw@);
    }
    out
}

/// Delta-encodes sorted absolute tokens into the `[dLine, dStart, len, type,
/// modifiers]` form of the protocol.
fn delta_encode(raw: &Vec<RawToken>) -> (r: Vec<SemanticToken>)
    requires
        tokens_sorted(raw@),
    ensures
        r@ == delta_spec(raw@),
{
    let mut data: Vec<SemanticToken> = Vec::new();
    let mut prev_line: u32 = 0;
    let mut prev_start: u32 = 0;
    let mut i: usize = 0;
    while i < raw.len()
        invariant
            i <= raw@.len(),
            tokens_sorted(raw@),
            data@.len() == i,
            forall|k: int| 0 <= k < i ==> #[trigger] data@[k] == delta_spec(raw@)[k],
            i == 0 ==> prev_line == 0 && prev_start == 0,
            i > 0 ==> prev_line == raw@[i - 1].line && prev_start == raw@[i - 1].start,
        decreases raw@.len() - i,
    {
        let tok = raw[i];
        proof {
            if i > 0 {
                assert(tok_le(raw@[i - 1], raw@[i as int]));
            }
        }
        let delta_line = tok.line - prev_line;
        let delta_start = if delta_line == 0 {
            tok.start - prev_start
        } else {
            tok.start
        };
        data.push(
            SemanticToken {
                delta_line,
                delta_start,
                length: tok.length,
                token_type: tok.token_type,
                token_modifiers_bitset: 0,
            },
        );
        prev_line = tok.line;
        prev_start = tok.start;
        i += 1;
    }
    proof {
        assert(data@ =~= delta_spec(raw@));
    }
    data
}

/// The tokens of one attribute: its name, then its expression markers, when
/// the attribute is a recognized Thymeleaf attribute.
fn attribute_tokens(doc: &Document, attr: &AttrOccurrence, raw: &mut Vec<RawToken>)
    ensures
        final(raw)@ == if lookup_spec(attr@.name) is None {
            old(raw)@
        } else {
            macro_tokens(
                with_token(old(raw)@, doc.chars_view(), attr@.name_range.start as int, attr@.name_range.end as int, TYPE_PROPERTY),
                doc.chars_view(),
                attr@.value_range.start as int,
                expr_spans(encode_utf8(attr@.value), 0),
            )
        },
{
    if lookup(attr.name.as_str()).is_none() {
        return;
    }
    push_token(doc, raw, attr.name_range.start, attr.name_range.end, TYPE_PROPERTY);
    let ghost named = raw@;
    let ghost cs = doc.chars_view();
    let base = attr.value_range.start;
    let spans = expression_spans(attr.value.as_str(), base);
    let ghost all = expr_spans(encode_utf8(attr@.value), 0);
    let mut k: usize = 0;
    proof {
        assert(all.take(0) =~= Seq::<(int, int)>::empty());
    }
    while k < spans.len()
        invariant
            k <= spans@.len() <= all.len(),
            cs == doc.chars_view(),
            forall|q: int| 0 <= q < spans@.len() ==> #[trigger] spans@[q].0 == base + all[q].0,
            forall|q: int| 0 <= q < spans@.len() ==> #[trigger] spans@[q].1 == base + all[q].1,
            raw@ == macro_tokens(named, cs, base as int, all.take(k as int)),
        decreases spans@.len() - k,
    {
        let (s, e) = spans[k];
        proof {
            assert(all.take(k + 1).drop_last() =~= all.take(k as int));
            assert(all.take(k + 1).last() == all[k as int]);
        }
        push_token(doc, raw, s, e, TYPE_MACRO);
        k += 1;
    }
    proof {
        // The spans left out end beyond a machine word and add nothing.
        let kk = spans@.len() as int;
        assert forall|m: int| kk <= m <= all.len() implies macro_tokens(named, cs, base as int, all.take(m))
            == macro_tokens(named, cs, base as int, all.take(kk)) by {
            lemma_macro_tail(named, cs, base as int, all, kk, m);
        }
        assert(all.take(all.len() as int) =~= all);
    }
}

proof fn lemma_macro_tail(named: Seq<RawToken>, cs: Seq<char>, base: int, all: Seq<(int, int)>, kk: int, m: int)
    requires
        0 <= kk <= m <= all.len(),
        forall|q: int| kk <= q < all.len() ==> base + #[trigger] all[q].1 > usize::MAX,
    ensures
        macro_tokens(named, cs, base, all.take(m)) == macro_tokens(named, cs, base, all.take(kk)),
    decreases m - kk,
{
    if m > kk {
        assert(all.take(m).drop_last() =~= all.take(m - 1));
        assert(all.take(m).last() == all[m - 1]);
        lemma_macro_tail(named, cs, base, all, kk, m - 1);
    }
}

/// Produces the full-document semantic tokens for `doc`.
pub fn semantic_tokens_full(doc: &Document) -> (r: SemanticTokens)
    ensures
        r.data@ == delta_spec(tokens_spec(doc.chars_view(), doc_attrs(*doc))),
        tokens_sorted(tokens_spec(doc.chars_view(), doc_attrs(*doc))),
        tokens_disjoint(tokens_spec(doc.chars_view(), doc_attrs(*doc))),
{
    let attrs = doc.attributes();
    let ghost av = views(attrs@);
    let ghost cs = doc.chars_view();
    let mut raw: Vec<RawToken> = Vec::new();
    let mut k: usize = 0;
    proof {
        assert(av.take(0) =~= Seq::<AttrView>::empty());
    }
    while k < attrs.len()
        invariant
            k <= attrs@.len(),
            av == views(attrs@),
            av == doc_attrs(*doc),
            cs == doc.chars_view(),
            raw@ == raw_tokens(cs, av.take(k as int)),
        decreases attrs@.len() - k,
    {
        proof {
            assert(av.take(k + 1).drop_last() =~= av.take(k as int));
            assert(av.take(k + 1).last() == attrs@[k as int]@);
        }
        attribute_tokens(doc, &attrs[k], &mut raw);
        k += 1;
    }
    proof {
        assert(av.take(attrs@.len() as int) =~= av);
    }
    // Sort by (line, start), stably.
    let ghost unsorted = raw@;
    let mut sorted: Vec<RawToken> = Vec::new();
    let mut i: usize = 0;
    proof {
        assert(unsorted.take(0) =~= Seq::<RawToken>::empty());
    }
    while i < raw.len()
        invariant
            i <= raw@.len(),
            raw@ == unsorted,
            sorted@ == sort_tokens(unsorted.take(i as int)),
        decreases raw@.len() - i,
    {
        let x = raw[i];
        let ghost before = sorted@;
        proof {
            assert(unsorted.take(i + 1).drop_last() =~= unsorted.take(i as int));
            assert(unsorted.take(i + 1).last() == x);
        }
        let mut j = sorted.len();
        proof {
            assert(before.take(j as int) =~= before);
        }
        while j > 0 && !(sorted[j - 1].line < x.line || (sorted[j - 1].line == x.line && sorted[j
            - 1].start <= x.start))
            invariant
                j <= sorted@.len(),
                sorted@ == before,
                tok_insert_pos(before, x) == tok_insert_pos(before.take(j as int), x),
            decreases j,
        {
            proof {
                assert(before.take(j as int).drop_last() =~= before.take(j - 1));
                assert(before.take(j as int).last() == before[j - 1]);
            }
            j -= 1;
        }
        proof {
            if j > 0 {
                assert(before.take(j as int).last() == before[j - 1]);
            }
            assert(tok_insert_pos(before, x) == j);
        }
        sorted.insert(j, x);
        proof {
            assert(sorted@ =~= before.take(j as int).push(x) + before.skip(j as int));
        }
        i += 1;
    }
    proof {
        assert(unsorted.take(raw@.len() as int) =~= unsorted);
        lemma_sort_tokens(unsorted);
    }
    let kept = dedup_overlaps(sorted);
    SemanticTokens { data: delta_encode(&kept) }
}

} // verus!
