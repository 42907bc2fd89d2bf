//! Hover: documentation for Thymeleaf attributes and, with the cursor inside
//! a `th:*` attribute value, help for the expression syntax or utility object
//! under the cursor.

use vstd::prelude::*;
use vstd::string::*;
use vstd::utf8::encode_utf8;
use crate::document::{
    doc_attrs, offset_spec, range_at, views, AttrOccurrence, AttrView, Document, LspRange,
    Position,
};
use crate::fragmentref::find_byte;
use crate::highlight::{lemma_name_hit_range, name_hit};
use crate::text::{chars_of, find_char, find_char_spec, has_prefix, starts_with_chars, string_of};
use crate::thymeleaf::{
    expression_catalog, expression_syntaxes, is_thymeleaf_name, is_thymeleaf_name_spec,
    lookup, lookup_spec, syntax_entry,
};
use crate::vault::{doc_for, Vault};

verus! {

/// Hover contents: markdown and the range it describes.
#[derive(Debug)]
pub struct Hover {
    pub value: String,
    pub range: Option<LspRange>,
}

pub struct HoverView {
    pub value: Seq<char>,
    pub range: Option<LspRange>,
}

impl View for Hover {
    type V = HoverView;

    open spec fn view(&self) -> HoverView {
        HoverView { value: self.value@, range: self.range }
    }
}

// === Expression help =======================================================

/// A candidate token: (start, length, markdown, is a utility object).
pub type Candidate = (int, int, Seq<char>, bool);

/// Whether a description belongs to a utility object: utility descriptions do
/// not open with the bold "**...expression**" heading.
pub open spec fn is_utility_md_spec(md: Seq<char>) -> bool {
    !has_prefix(md, "**"@)
}

/// Utility objects rank before brace expressions.
pub open spec fn rank(utility: bool) -> int {
    if utility {
        0
    } else {
        1
    }
}

/// Candidate `(u1, l1)` beats `(u2, l2)`: a better rank, or the same rank and
/// a shorter span.
pub open spec fn better(u1: bool, l1: int, u2: bool, l2: int) -> bool {
    rank(u1) < rank(u2) || (rank(u1) == rank(u2) && l1 < l2)
}

/// Keeps the best of the current choice and a new candidate.
pub open spec fn consider_spec(best: Option<(int, int, Seq<char>)>, c: Candidate) -> Option<(int, int, Seq<char>)> {
    match best {
        None => Some((c.0, c.1, c.2)),
        Some(b) => if better(c.3, c.1, is_utility_md_spec(b.2), b.1) {
            Some((c.0, c.1, c.2))
        } else {
            best
        },
    }
}

/// Considers the candidates in order.
pub open spec fn fold_consider(best: Option<(int, int, Seq<char>)>, cands: Seq<Candidate>) -> Option<(int, int, Seq<char>)>
    decreases cands.len(),
{
    if cands.len() == 0 {
        best
    } else {
        fold_consider(consider_spec(best, cands[0]), cands.drop_first())
    }
}

/// Whether `pat` occurs in `vb` at `i`.
pub open spec fn matches_at(vb: Seq<u8>, pat: Seq<u8>, i: int) -> bool {
    0 <= i && i + pat.len() <= vb.len() && vb.subrange(i, i + pat.len()) == pat
}

/// Where a match at `i` ends: after the next `}` for a brace expression
/// (the end of the value when there is none), after the token otherwise.
pub open spec fn span_end(vb: Seq<u8>, pat: Seq<u8>, i: int, brace: bool) -> int {
    if brace {
        match find_byte(vb, i, vb.len() as int, 0x7du8) {
            Some(j) => j + 1,
            None => vb.len() as int,
        }
    } else {
        i + pat.len()
    }
}

/// The candidates of one token: its matches from `from` on, left to right,
/// each resuming after the matched pattern, keeping those whose span holds
/// `rel`.
pub open spec fn token_cands(vb: Seq<u8>, pat: Seq<u8>, rel: int, from: int, md: Seq<char>, brace: bool) -> Seq<Candidate>
    decreases vb.len() - from,
{
    if pat.len() == 0 || from < 0 || from + pat.len() > vb.len() {
        Seq::empty()
    } else if matches_at(vb, pat, from) {
        let e = span_end(vb, pat, from, brace);
        let here = if from <= rel <= e {
            seq![(from, e - from, md, !brace)]
        } else {
            Seq::<Candidate>::empty()
        };
        here + token_cands(vb, pat, rel, from + pat.len(), md, brace)
    } else {
        token_cands(vb, pat, rel, from + 1, md, brace)
    }
}

/// The first two characters of a token.
pub open spec fn open_of(t: Seq<char>) -> Seq<char> {
    if t.len() < 2 {
        t
    } else {
        t.take(2)
    }
}

/// Whether a token is a brace expression such as `${...}`.
pub open spec fn is_brace(t: Seq<char>) -> bool {
    find_char_spec(t, '{') is Some
}

/// What is searched for: the opening of a brace expression, or the whole
/// utility-object token.
pub open spec fn pattern_of(t: Seq<char>) -> Seq<u8> {
    if is_brace(t) {
        encode_utf8(open_of(t))
    } else {
        encode_utf8(t)
    }
}

/// The candidates of every catalog entry, in catalog order.
pub open spec fn all_cands(vb: Seq<u8>, rel: int, es: Seq<(Seq<char>, Seq<char>)>) -> Seq<Candidate>
    decreases es.len(),
{
    if es.len() == 0 {
        Seq::empty()
    } else {
        token_cands(vb, pattern_of(es[0].0), rel, 0, es[0].1, is_brace(es[0].0)) + all_cands(
            vb,
            rel,
            es.drop_first(),
        )
    }
}

/// The help shown for the cursor at byte `offset` inside the value of `a`:
/// the description of the best candidate token and the range of that token.
pub open spec fn help_spec(cs: Seq<char>, a: AttrView, offset: int) -> Option<(Seq<char>, LspRange)> {
    let vb = encode_utf8(a.value);
    let base = a.value_range.start as int;
    let d = offset - base;
    let rel = if d < 0 {
        0
    } else if d > vb.len() {
        vb.len() as int
    } else {
        d
    };
    match fold_consider(None, all_cands(vb, rel, expression_catalog())) {
        Some((s, l, md)) => if base + s + l <= usize::MAX {
            Some((md, range_at(cs, base + s, base + s + l)))
        } else {
            None
        },
        None => None,
    }
}

proof fn lemma_fold_concat(best: Option<(int, int, Seq<char>)>, a: Seq<Candidate>, b: Seq<Candidate>)
    ensures
        fold_consider(best, a + b) == fold_consider(fold_consider(best, a), b),
    decreases a.len(),
{
    if a.len() == 0 {
        assert(a + b =~= b);
    } else {
        assert((a + b).drop_first() =~= a.drop_first() + b);
        assert((a + b)[0] == a[0]);
        lemma_fold_concat(consider_spec(best, a[0]), a.drop_first(), b);
    }
}

pub open spec fn best_view(b: Option<(usize, usize, &'static str)>) -> Option<(int, int, Seq<char>)> {
    match b {
        Some(t) => Some((t.0 as int, t.1 as int, t.2@)),
        None => None,
    }
}

/// Whether a stored description belongs to a utility object.
fn is_utility_md(md: &str) -> (r: bool)
    ensures
        r == is_utility_md_spec(md@),
{
    !starts_with_chars(&chars_of(md), &chars_of("**"))
}

/// Keeps the best candidate match: utility objects win over brace
/// expressions; within a kind the shorter span wins.
fn consider(
    best: &mut Option<(usize, usize, &'static str)>,
    start: usize,
    len: usize,
    md: &'static str,
    utility: bool,
)
    ensures
        best_view(*final(best)) == consider_spec(
            best_view(*old(best)),
            (start as int, len as int, md@, utility),
        ),
{
    match *best {
        None => {
            *best = Some((start, len, md));
        },
        Some((_, best_len, best_md)) => {
            let best_is_util = is_utility_md(best_md);
            let r1: u8 = if utility {
                0
            } else {
                1
            };
            let r2: u8 = if best_is_util {
                0
            } else {
                1
            };
            if r1 < r2 || (r1 == r2 && len < best_len) {
                *best = Some((start, len, md));
            }
        },
    }
}

/// Whether `pat` occurs in `vb` at `i`.
fn bytes_at(vb: &[u8], pat: &[u8], i: usize) -> (r: bool)
    requires
        i + pat@.len() <= vb@.len(),
    ensures
        r == matches_at(vb@, pat@, i as int),
{
    let m = pat.len();
    let n = vb.len();
    let mut j: usize = 0;
    while j < m
        invariant
            m == pat@.len(),
            n == vb@.len(),
            i + m <= vb@.len(),
            j <= m,
            forall|t: int| 0 <= t < j ==> vb@[i + t] == pat@[t],
        decreases m - j,
    {
        if vb[i + j] != pat[j] {
            proof {
                assert(vb@.subrange(i as int, i + m)[j as int] != pat@[j as int]);
            }
            return false;
        }
        j += 1;
    }
    proof {
        assert(vb@.subrange(i as int, i + m) =~= pat@);
    }
    true
}

/// Position of the first `}` at or after `i`.
fn find_close(vb: &[u8], i: usize) -> (r: Option<usize>)
    requires
        i <= vb@.len(),
    ensures
        r matches Some(j) ==> find_byte(vb@, i as int, vb@.len() as int, 0x7du8) == Some(j as int) && i <= j < vb@.len(),
        r is None ==> find_byte(vb@, i as int, vb@.len() as int, 0x7du8) is None,
{
    let n = vb.len();
    let mut k = i;
    while k < n
        invariant
            i <= k <= n == vb@.len(),
            find_byte(vb@, k as int, n as int, 0x7du8) == find_byte(vb@, i as int, n as int, 0x7du8),
        decreases n - k,
    {
        if vb[k] == 0x7d {
            return Some(k);
        }
        k += 1;
    }
    None
}

/// Finds the expression-syntax / utility-object token under the cursor within
/// an attribute value: its description and the range of the token.
fn expression_help_at(doc: &Document, attr: &AttrOccurrence, offset: usize) -> (r: Option<(&'static str, LspRange)>)
    ensures
        r matches Some(h) ==> help_spec(doc.chars_view(), attr@, offset as int) == Some((h.0@, h.1)),
        r is None ==> help_spec(doc.chars_view(), attr@, offset as int) is None,
{
    let value = attr.value.as_str();
    let vb = value.as_bytes();
    let n = vb.len();
    let ghost vbs = vb@;
    let base = attr.value_range.start;
    // Offset within the value string.
    let d = if offset >= base {
        offset - base
    } else {
        0
    };
    let rel = if d > n {
        n
    } else {
        d
    };
    let syn = expression_syntaxes();
    let ghost cat = expression_catalog();
    let ghost target = fold_consider(None, all_cands(vbs, rel as int, cat));
    let mut best: Option<(usize, usize, &'static str)> = None;
    let mut t: usize = 0;
    proof {
        assert(cat.skip(0) =~= cat);
    }
    while t < syn.len()
        invariant
            t <= syn@.len(),
            syn@.map_values(|e: (&'static str, &'static str)| syntax_entry(e)) == cat,
            vbs == vb@,
            n == vbs.len(),
            rel <= n,
            target == fold_consider(best_view(best), all_cands(vbs, rel as int, cat.skip(t as int))),
        decreases syn@.len() - t,
    {
        let (token, md) = syn[t];
        let ghost e = cat[t as int];
        proof {
            assert(e == syntax_entry(syn@[t as int]));
            assert(cat.skip(t as int).drop_first() =~= cat.skip(t + 1));
            assert(cat.skip(t as int)[0] == e);
            lemma_fold_concat(
                best_view(best),
                token_cands(vbs, pattern_of(e.0), rel as int, 0, e.1, is_brace(e.0)),
                all_cands(vbs, rel as int, cat.skip(t + 1)),
            );
        }
        let tcs = chars_of(token);
        proof {
            assert(tcs@.subrange(0, tcs@.len() as int) =~= tcs@);
        }
        let brace = find_char(&tcs, 0, tcs.len(), '{').is_some();
        let pat_string = if brace {
            let k = if tcs.len() < 2 {
                tcs.len()
            } else {
                2
            };
            let p = string_of(&tcs, 0, k);
            proof {
                if tcs@.len() < 2 {
                    assert(tcs@.subrange(0, k as int) =~= tcs@);
                } else {
                    assert(tcs@.subrange(0, 2) =~= tcs@.take(2));
                }
            }
            p
        } else {
            String::from_str(token)
        };
        let pat = pat_string.as_str().as_bytes();
        let ghost pats = pat@;
        let ghost best_t = best_view(best);
        let m = pat.len();
        if m > 0 && m <= n {
            let mut i: usize = 0;
            while i <= n - m
                invariant
                    m == pats.len(),
                    0 < m <= n,
                    n == vbs.len(),
                    vbs == vb@,
                    pats == pat@,
                    rel <= n,
                    fold_consider(best_t, token_cands(vbs, pats, rel as int, 0, md@, brace)) == fold_consider(
                        best_view(best),
                        token_cands(vbs, pats, rel as int, i as int, md@, brace),
                    ),
                decreases n - i,
            {
                if bytes_at(vb, pat, i) {
                    let end = if brace {
                        match find_close(vb, i) {
                            Some(j) => j + 1,
                            None => n,
                        }
                    } else {
                        i + m
                    };
                    let ghost rest = token_cands(vbs, pats, rel as int, i + m, md@, brace);
                    let ghost before = best_view(best);
                    if rel >= i && rel <= end {
                        consider(&mut best, i, end - i, md, !brace);
                        proof {
                            let c: Candidate = (i as int, end - i, md@, !brace);
                            lemma_fold_concat(before, seq![c], rest);
                            assert(fold_consider(before, seq![c]) == fold_consider(
                                consider_spec(before, c),
                                seq![c].drop_first(),
                            ));
                            assert(seq![c].drop_first() =~= Seq::<Candidate>::empty());
                        }
                    } else {
                        proof {
                            assert(Seq::<Candidate>::empty() + rest =~= rest);
                        }
                    }
                    i += m;
                } else {
                    i += 1;
                }
            }
        } else {
            proof {
                assert(token_cands(vbs, pats, rel as int, 0, md@, brace) =~= Seq::<Candidate>::empty());
            }
        }
        proof {
            assert(pats == pattern_of(e.0));
            assert(md@ == e.1);
            assert(brace == is_brace(e.0));
        }
        t += 1;
    }
    proof {
        assert(cat.skip(syn@.len() as int) =~= Seq::<(Seq<char>, Seq<char>)>::empty());
        assert(syn@.len() == cat.len());
    }
    match best {
        Some((start, len, md)) => {
            if start > usize::MAX - base || len > usize::MAX - base - start {
                return None;
            }
            Some((md, doc.range_of(base + start, base + start + len)))
        },
        None => None,
    }
}

// === Hover =================================================================

/// Index of the first attribute whose value range holds `offset`.
pub open spec fn value_hit(attrs: Seq<AttrView>, offset: int) -> Option<int>
    decreases attrs.len(),
{
    if attrs.len() == 0 {
        None
    } else if attrs[0].value_range.start <= offset <= attrs[0].value_range.end {
        Some(0)
    } else {
        match value_hit(attrs.drop_first(), offset) {
            Some(i) => Some(i + 1),
            None => None,
        }
    }
}

proof fn lemma_value_hit_range(attrs: Seq<AttrView>, offset: int)
    ensures
        value_hit(attrs, offset) matches Some(i) ==> 0 <= i < attrs.len(),
    decreases attrs.len(),
{
    if attrs.len() > 0 {
        lemma_value_hit_range(attrs.drop_first(), offset);
    }
}

/// The markdown documenting a catalog entry.
pub open spec fn attr_markdown(e: (Seq<char>, Seq<char>, Seq<char>)) -> Seq<char> {
    "## `"@ + e.0 + "`\n\n"@ + e.1 + "\n\n"@ + e.2
}

/// The hover for the cursor at byte `offset`: the documentation of a known
/// attribute under the cursor's attribute name; otherwise, inside the value of
/// a `th:*` attribute, the help for the expression token there.
pub open spec fn hover_at(cs: Seq<char>, attrs: Seq<AttrView>, offset: int) -> Option<HoverView> {
    let named = match name_hit(attrs, offset) {
        Some(i) => match lookup_spec(attrs[i].name) {
            Some(e) => Some(
                HoverView {
                    value: attr_markdown(e),
                    range: Some(
                        range_at(cs, attrs[i].name_range.start as int, attrs[i].name_range.end as int),
                    ),
                },
            ),
            None => None,
        },
        None => None,
    };
    if named is Some {
        named
    } else {
        match value_hit(attrs, offset) {
            Some(j) => if is_thymeleaf_name_spec(attrs[j].name) {
                match help_spec(cs, attrs[j], offset) {
                    Some(h) => Some(HoverView { value: h.0, range: Some(h.1) }),
                    None => None,
                }
            } else {
                None
            },
            None => None,
        }
    }
}

/// Hover information for the symbol at `position` in the document `uri`.
pub fn hover(vault: &Vault, uri: &str, position: Position) -> (r: Option<Hover>)
    ensures
        r matches Some(h) ==> doc_for(vault.entries(), uri@) matches Some(d) && hover_at(
            d.chars_view(),
            doc_attrs(d),
            offset_spec(d.chars_view(), position),
        ) == Some(h@),
        r is None ==> match doc_for(vault.entries(), uri@) {
            Some(d) => hover_at(d.chars_view(), doc_attrs(d), offset_spec(d.chars_view(), position)) is None,
            None => true,
        },
{
    let doc = match vault.get(uri) {
        Some(d) => d,
        None => return None,
    };
    let offset = doc.offset_at(position);
    let attrs = doc.attributes();
    let ghost av = views(attrs@);
    let ghost cs = doc.chars_view();
    proof {
        lemma_name_hit_range(av, offset as int);
        lemma_value_hit_range(av, offset as int);
    }
    // 1) Cursor on an attribute name.
    let mut k: usize = 0;
    proof {
        assert(av.skip(0) =~= av);
    }
    let mut hit: Option<usize> = None;
    while k < attrs.len()
        invariant_except_break
            hit is None,
        invariant
            k <= attrs@.len(),
            av == views(attrs@),
            name_hit(av, offset as int) == match name_hit(av.skip(k as int), offset as int) {
                Some(i) => Some(i + k),
                None => None,
            },
        ensures
            hit == match name_hit(av, offset as int) {
                Some(i) => Some(i as usize),
                None => None::<usize>,
            },
        decreases attrs@.len() - k,
    {
        proof {
            assert(av.skip(k as int).drop_first() =~= av.skip(k + 1));
            assert(av.skip(k as int)[0] == attrs@[k as int]@);
        }
        let a = &attrs[k];
        if offset >= a.name_range.start && offset <= a.name_range.end {
            hit = Some(k);
            break;
        }
        k += 1;
    }
    if let Some(i) = hit {
        let a = &attrs[i];
        if let Some(meta) = lookup(a.name.as_str()) {
            let mut markdown = String::from_str("## `");
            markdown.append(meta.name);
            markdown.append("`\n\n");
            markdown.append(meta.summary);
            markdown.append("\n\n");
            markdown.append(meta.doc);
            let range = doc.range_of(a.name_range.start, a.name_range.end);
            return Some(Hover { value: markdown, range: Some(range) });
        }
    }
    // 2) Cursor inside a th:* attribute value: expression help.
    let mut k: usize = 0;
    let mut vhit: Option<usize> = None;
    while k < attrs.len()
        invariant_except_break
            vhit is None,
        invariant
            k <= attrs@.len(),
            av == views(attrs@),
            value_hit(av, offset as int) == match value_hit(av.skip(k as int), offset as int) {
                Some(i) => Some(i + k),
                None => None,
            },
        ensures
            vhit == match value_hit(av, offset as int) {
                Some(i) => Some(i as usize),
                None => None::<usize>,
            },
        decreases attrs@.len() - k,
    {
        proof {
            assert(av.skip(k as int).drop_first() =~= av.skip(k + 1));
            assert(av.skip(k as int)[0] == attrs@[k as int]@);
        }
        let a = &attrs[k];
        if offset >= a.value_range.start && offset <= a.value_range.end {
            vhit = Some(k);
            break;
        }
        k += 1;
    }
    if let Some(j) = vhit {
        let a = &attrs[j];
        if is_thymeleaf_name(a.name.as_str()) {
            if let Some((md, range)) = expression_help_at(doc, a, offset) {
                return Some(Hover { value: String::from_str(md), range: Some(range) });
            }
        }
    }
    None
}

} // verus!
