//! Document highlight: every occurrence, within the current document, of the
//! symbol under the cursor.
//!
//! Two symbol kinds are recognised:
//!   * **Fragment names**: with the cursor on the name token of a
//!     `th:fragment` definition, or on the referenced name token of a
//!     `th:insert`/`th:replace`/`th:include`, every matching fragment name
//!     token is highlighted: definitions as `Write`, references as `Read`.
//!   * **Attribute names**: otherwise, with the cursor on an attribute name,
//!     every attribute of that same name is highlighted as `Text`.

use std::ops::Range;
use vstd::prelude::*;
use vstd::string::*;
use vstd::utf8::{decode_utf8, encode_utf8};
use crate::document::{
    doc_attrs, offset_spec, range_at, views, AttrOccurrence, AttrView, Document, LspRange,
    Position,
};
use crate::fragmentref::{
    definition_name_range, definition_range_spec, is_fragment_attr, is_fragment_attr_spec,
    is_reference_attr, is_reference_attr_spec, reference_name_range, reference_range_spec,
};
use crate::text::{str_eq, substr};

verus! {

/// How an occurrence is highlighted.
#[derive(Debug, Clone, Copy, PartialEq, Eq, Structural)]
pub enum HighlightKind {
    Text,
    Read,
    Write,
}

/// One highlighted occurrence.
#[derive(Debug, Clone, Copy, PartialEq, Eq, Structural)]
pub struct DocumentHighlight {
    pub range: LspRange,
    pub kind: Option<HighlightKind>,
}

/// The byte range, within the value, of an attribute's fragment name token.
pub open spec fn value_token(a: AttrView) -> Option<(int, int)> {
    if is_fragment_attr_spec(a.name) {
        definition_range_spec(encode_utf8(a.value))
    } else if is_reference_attr_spec(a.name) {
        reference_range_spec(encode_utf8(a.value))
    } else {
        None
    }
}

/// An attribute's fragment name token: the name and its absolute byte range.
/// A token whose end would not fit in a machine word is treated as absent.
pub open spec fn fragment_token_spec(a: AttrView) -> Option<(Seq<char>, int, int)> {
    match value_token(a) {
        Some((x, y)) => {
            let s = a.value_range.start + x;
            let e = a.value_range.start + y;
            if e <= usize::MAX {
                Some((decode_utf8(encode_utf8(a.value).subrange(x, y)), s, e))
            } else {
                None
            }
        },
        None => None,
    }
}

/// The name of the first fragment token of `attrs` holding `offset`.
pub open spec fn fragment_name_at_spec(attrs: Seq<AttrView>, offset: int) -> Option<Seq<char>>
    decreases attrs.len(),
{
    if attrs.len() == 0 {
        None
    } else {
        match fragment_token_spec(attrs[0]) {
            Some(t) => if t.1 <= offset <= t.2 {
                Some(t.0)
            } else {
                fragment_name_at_spec(attrs.drop_first(), offset)
            },
            None => fragment_name_at_spec(attrs.drop_first(), offset),
        }
    }
}

/// Every fragment token of `attrs` reading `name`: definitions as `Write`,
/// references as `Read`.
pub open spec fn fragment_highlights_spec(cs: Seq<char>, attrs: Seq<AttrView>, name: Seq<char>) -> Seq<DocumentHighlight>
    decreases attrs.len(),
{
    if attrs.len() == 0 {
        Seq::empty()
    } else {
        let prev = fragment_highlights_spec(cs, attrs.drop_last(), name);
        let a = attrs.last();
        match fragment_token_spec(a) {
            Some(t) => if t.0 == name {
                prev.push(
                    DocumentHighlight {
                        range: range_at(cs, t.1, t.2),
                        kind: Some(
                            if is_fragment_attr_spec(a.name) {
                                HighlightKind::Write
                            } else {
                                HighlightKind::Read
                            },
                        ),
                    },
                )
            } else {
                prev
            },
            None => prev,
        }
    }
}

/// Index of the first attribute whose name range holds `offset`.
pub open spec fn name_hit(attrs: Seq<AttrView>, offset: int) -> Option<int>
    decreases attrs.len(),
{
    if attrs.len() == 0 {
        None
    } else if attrs[0].name_range.start <= offset <= attrs[0].name_range.end {
        Some(0)
    } else {
        match name_hit(attrs.drop_first(), offset) {
            Some(i) => Some(i + 1),
            None => None,
        }
    }
}

/// The name ranges of every attribute of `attrs` called `name`, as `Text`.
pub open spec fn same_name_highlights(cs: Seq<char>, attrs: Seq<AttrView>, name: Seq<char>) -> Seq<DocumentHighlight>
    decreases attrs.len(),
{
    if attrs.len() == 0 {
        Seq::empty()
    } else {
        let prev = same_name_highlights(cs, attrs.drop_last(), name);
        let a = attrs.last();
        if a.name == name {
            prev.push(
                DocumentHighlight {
                    range: range_at(cs, a.name_range.start as int, a.name_range.end as int),
                    kind: Some(HighlightKind::Text),
                },
            )
        } else {
            prev
        }
    }
}

/// The highlights for the cursor at byte `offset`.
pub open spec fn highlights_spec(cs: Seq<char>, attrs: Seq<AttrView>, offset: int) -> Seq<DocumentHighlight> {
    match fragment_name_at_spec(attrs, offset) {
        Some(n) if n.len() > 0 => fragment_highlights_spec(cs, attrs, n),
        _ => match name_hit(attrs, offset) {
            Some(i) => same_name_highlights(cs, attrs, attrs[i].name),
            None => Seq::empty(),
        },
    }
}

pub proof fn lemma_name_hit_range(attrs: Seq<AttrView>, offset: int)
    ensures
        name_hit(attrs, offset) matches Some(i) ==> 0 <= i < attrs.len(),
    decreases attrs.len(),
{
    if attrs.len() > 0 {
        lemma_name_hit_range(attrs.drop_first(), offset);
    }
}

/// The fragment name token of one attribute: the name and its absolute range.
pub(crate) fn fragment_token(a: &AttrOccurrence) -> (r: Option<(&str, Range<usize>)>)
    ensures
        r matches Some(t) ==> fragment_token_spec(a@) == Some((t.0@, t.1.start as int, t.1.end as int)),
        r is None ==> fragment_token_spec(a@) is None,
{
    let value = a.value.as_str();
    let token = if is_fragment_attr(a.name.as_str()) {
        definition_name_range(value)
    } else if is_reference_attr(a.name.as_str()) {
        reference_name_range(value)
    } else {
        None
    };
    match token {
        Some(r) => {
            let base = a.value_range.start;
            proof {
                crate::text::lemma_str_valid(value);
                match value_token(a@) {
                    Some((x, y)) => {
                        assert(x == r.start && y == r.end);
                    },
                    None => {},
                }
            }
            if r.end > usize::MAX - base {
                return None;
            }
            let name = substr(value, r.start, r.end);
            Some((name, (base + r.start)..(base + r.end)))
        },
        None => None,
    }
}

/// If `offset` falls inside the fragment *name token* of some attribute
/// value, that fragment name.
fn fragment_name_under_cursor(attrs: &Vec<AttrOccurrence>, offset: usize) -> (r: Option<String>)
    ensures
        r matches Some(n) ==> fragment_name_at_spec(views(attrs@), offset as int) == Some(n@),
        r is None ==> fragment_name_at_spec(views(attrs@), offset as int) is None,
{
    let ghost av = views(attrs@);
    let mut k: usize = 0;
    proof {
        assert(av.skip(0) =~= av);
    }
    while k < attrs.len()
        invariant
            k <= attrs@.len(),
            av == views(attrs@),
            fragment_name_at_spec(av, offset as int) == fragment_name_at_spec(av.skip(k as int), offset as int),
        decreases attrs@.len() - k,
    {
        proof {
            assert(av.skip(k as int).drop_first() =~= av.skip(k + 1));
            assert(av.skip(k as int)[0] == attrs@[k as int]@);
        }
        match fragment_token(&attrs[k]) {
            Some((name, span)) => {
                if offset >= span.start && offset <= span.end {
                    return Some(String::from_str(name));
                }
            },
            None => {},
        }
        k += 1;
    }
    None
}

/// Highlights every fragment name token matching `name` across the document:
/// definitions as `Write`, references as `Read`.
fn fragment_highlights(doc: &Document, attrs: &Vec<AttrOccurrence>, name: &str) -> (r: Vec<DocumentHighlight>)
    ensures
        r@ == fragment_highlights_spec(doc.chars_view(), views(attrs@), name@),
{
    let ghost av = views(attrs@);
    let ghost cs = doc.chars_view();
    let mut out: Vec<DocumentHighlight> = Vec::new();
    let mut k: usize = 0;
    proof {
        assert(av.take(0) =~= Seq::<AttrView>::empty());
    }
    while k < attrs.len()
        invariant
            k <= attrs@.len(),
            av == views(attrs@),
            cs == doc.chars_view(),
            out@ == fragment_highlights_spec(cs, av.take(k as int), name@),
        decreases attrs@.len() - k,
    {
        proof {
            assert(av.take(k + 1).drop_last() =~= av.take(k as int));
            assert(av.take(k + 1).last() == attrs@[k as int]@);
        }
        let a = &attrs[k];
        match fragment_token(a) {
            Some((token_name, span)) => {
                if str_eq(token_name, name) {
                    let kind = if is_fragment_attr(a.name.as_str()) {
                        HighlightKind::Write
                    } else {
                        HighlightKind::Read
                    };
                    out.push(DocumentHighlight { range: doc.range_of(span.start, span.end), kind: Some(kind) });
                }
            },
            None => {},
        }
        k += 1;
    }
    proof {
        assert(av.take(attrs@.len() as int) =~= av);
    }
    out
}

/// The name ranges of every attribute called `name`.
fn same_name(doc: &Document, attrs: &Vec<AttrOccurrence>, name: &str) -> (r: Vec<DocumentHighlight>)
    ensures
        r@ == same_name_highlights(doc.chars_view(), views(attrs@), name@),
{
    let ghost av = views(attrs@);
    let ghost cs = doc.chars_view();
    let mut out: Vec<DocumentHighlight> = Vec::new();
    let mut k: usize = 0;
    proof {
        assert(av.take(0) =~= Seq::<AttrView>::empty());
    }
    while k < attrs.len()
        invariant
            k <= attrs@.len(),
            av == views(attrs@),
            cs == doc.chars_view(),
            out@ == same_name_highlights(cs, av.take(k as int), name@),
        decreases attrs@.len() - k,
    {
        proof {
            assert(av.take(k + 1).drop_last() =~= av.take(k as int));
            assert(av.take(k + 1).last() == attrs@[k as int]@);
        }
        let a = &attrs[k];
        if str_eq(a.name.as_str(), name) {
            out.push(
                DocumentHighlight {
                    range: doc.range_of(a.name_range.start, a.name_range.end),
                    kind: Some(HighlightKind::Text),
                },
            );
        }
        k += 1;
    }
    proof {
        assert(av.take(attrs@.len() as int) =~= av);
    }
    out
}

/// Computes the document highlights for the symbol under `position`: empty
/// when the cursor is neither on a fragment name token nor on an attribute
/// name.
pub fn document_highlight(doc: &Document, position: Position) -> (r: Vec<DocumentHighlight>)
    ensures
        r@ == highlights_spec(doc.chars_view(), doc_attrs(*doc), offset_spec(doc.chars_view(), position)),
{
    let offset = doc.offset_at(position);
    let attrs = doc.attributes();
    let ghost av = views(attrs@);
    // 1. Fragment name token under the cursor -> every definition/reference.
    match fragment_name_under_cursor(&attrs, offset) {
        Some(name) => {
            if name.as_str().unicode_len() > 0 {
                return fragment_highlights(doc, &attrs, name.as_str());
            }
        },
        None => {},
    }
    // 2. Attribute name under the cursor -> every same-named attribute.
    let mut k: usize = 0;
    proof {
        assert(av.skip(0) =~= av);
        lemma_name_hit_range(av, offset as int);
    }
    while k < attrs.len()
        invariant
            k <= attrs@.len(),
            av == views(attrs@),
            av == doc_attrs(*doc),
            offset as int == offset_spec(doc.chars_view(), position),
            !(fragment_name_at_spec(av, offset as int) matches Some(n) && n.len() > 0),
            name_hit(av, offset as int) == match name_hit(av.skip(k as int), offset as int) {
                Some(i) => Some(i + k),
                None => None,
            },
        decreases attrs@.len() - k,
    {
        proof {
            assert(av.skip(k as int).drop_first() =~= av.skip(k + 1));
            assert(av.skip(k as int)[0] == attrs@[k as int]@);
        }
        let a = &attrs[k];
        if offset >= a.name_range.start && offset <= a.name_range.end {
            return same_name(doc, &attrs, a.name.as_str());
        }
        k += 1;
    }
    Vec::new()
}

} // verus!
