//! Workspace-wide rename for Thymeleaf fragments.
//!
//! A fragment is *defined* by `th:fragment="name(args)"` and *referenced* by
//! `th:insert`/`th:replace`/`th:include`, whose values look like
//! `~{template :: name}`, `template :: name`, `:: name`, or a bare `name`.
//!
//! Renaming touches only the *name token* wherever it appears: the `(args)`
//! suffix of a definition and the `~{template :: }` wrapper of a reference are
//! preserved. The name token is located by [`crate::fragmentref`], as for
//! navigation and highlight.

use std::ops::Range;
use vstd::prelude::*;
use vstd::string::*;
use crate::code_actions::{TextEdit, TextEditView};
use crate::document::{
    doc_attrs, offset_spec, range_at, views, AttrOccurrence, AttrView, Document, LspRange,
    Position,
};
use crate::fragmentref::{
    definition_name_range, definition_range_spec, reference_name_range, reference_range_spec,
};
use crate::highlight::{fragment_token, fragment_token_spec};
use crate::text::str_eq;
use crate::vault::{doc_for, lemma_find_entry, Vault, VaultEntry};

verus! {

/// An attribute's fragment name token, as `fragmentref` locates it: the
/// name and its absolute byte range in the document. A token whose end would
/// not fit in a machine word is treated as absent.
pub open spec fn name_token(a: AttrView) -> Option<(Seq<char>, int, int)> {
    fragment_token_spec(a)
}

/// The first name token of `attrs` whose range holds `offset` (ends
/// included).
pub open spec fn token_at(attrs: Seq<AttrView>, offset: int) -> Option<(Seq<char>, int, int)>
    decreases attrs.len(),
{
    if attrs.len() == 0 {
        None
    } else {
        match name_token(attrs[0]) {
            Some(t) => if t.1 <= offset <= t.2 {
                Some(t)
            } else {
                token_at(attrs.drop_first(), offset)
            },
            None => token_at(attrs.drop_first(), offset),
        }
    }
}

/// The name token under `position` in document `d`.
pub open spec fn token_under(d: Document, position: Position) -> Option<(Seq<char>, int, int)> {
    token_at(doc_attrs(d), offset_spec(d.chars_view(), position))
}

/// Byte range (within `value`) of the fragment name in a `th:fragment`
/// value, as [`definition_name_range`] finds it, e.g. `"header(title)"` ->
/// `0..6`. `None` if the name is empty.
pub fn definition_name_span(value: &str) -> (r: Option<Range<usize>>)
    ensures
        r matches Some(rg) ==> definition_range_spec(value.spec_bytes()) == Some(
            (rg.start as int, rg.end as int),
        ),
        r is None ==> definition_range_spec(value.spec_bytes()) is None,
{
    definition_name_range(value)
}

/// Byte range (within `value`) of the referenced fragment name in a
/// `th:insert`/`th:replace`/`th:include` value, as [`reference_name_range`]
/// finds it. `None` if the name is empty.
pub fn reference_name_span(value: &str) -> (r: Option<Range<usize>>)
    ensures
        r matches Some(rg) ==> reference_range_spec(value.spec_bytes()) == Some(
            (rg.start as int, rg.end as int),
        ),
        r is None ==> reference_range_spec(value.spec_bytes()) is None,
{
    reference_name_range(value)
}

/// For a `th:fragment` definition or a fragment reference, the fragment name
/// and the absolute byte range of its name token.
fn attr_name_token(attr: &AttrOccurrence) -> (r: Option<(String, Range<usize>)>)
    ensures
        r matches Some(t) ==> name_token(attr@) == Some((t.0@, t.1.start as int, t.1.end as int)),
        r is None ==> name_token(attr@) is None,
{
    match fragment_token(attr) {
        Some((name, span)) => Some((String::from_str(name), span)),
        None => None,
    }
}

/// Finds the fragment name token under `offset`: its name and absolute byte
/// range.
fn name_token_at(doc: &Document, offset: usize) -> (r: Option<(String, Range<usize>)>)
    ensures
        r matches Some(t) ==> token_at(doc_attrs(*doc), offset as int) == Some(
            (t.0@, t.1.start as int, t.1.end as int),
        ),
        r is None ==> token_at(doc_attrs(*doc), offset as int) is None,
{
    let attrs = doc.attributes();
    let ghost av = views(attrs@);
    let mut k: usize = 0;
    proof {
        assert(av.skip(0) =~= av);
    }
    while k < attrs.len()
        invariant
            k <= attrs@.len(),
            av == views(attrs@),
            av == doc_attrs(*doc),
            token_at(av, offset as int) == token_at(av.skip(k as int), offset as int),
        decreases attrs@.len() - k,
    {
        proof {
            assert(av.skip(k as int).drop_first() =~= av.skip(k + 1));
            assert(av.skip(k as int)[0] == attrs@[k as int]@);
        }
        match attr_name_token(&attrs[k]) {
            Some((name, span)) => {
                if offset >= span.start && offset <= span.end {
                    return Some((name, span));
                }
            },
            None => {},
        }
        k += 1;
    }
    None
}

/// Rename-prepare: the range of the fragment name token under the cursor (in
/// a `th:fragment` definition or a fragment reference), or `None`.
pub fn prepare_rename(vault: &Vault, uri: &str, position: Position) -> (r: Option<LspRange>)
    ensures
        r == match doc_for(vault.entries(), uri@) {
            Some(d) => match token_under(d, position) {
                Some(t) => Some(range_at(d.chars_view(), t.1, t.2)),
                None => None,
            },
            None => None,
        },
{
    let doc = match vault.get(uri) {
        Some(d) => d,
        None => return None,
    };
    let offset = doc.offset_at(position);
    match name_token_at(doc, offset) {
        Some((_name, span)) => Some(doc.range_of(span.start, span.end)),
        None => None,
    }
}

/// The edits renaming one document.
#[derive(Debug)]
pub struct DocumentEdits {
    pub uri: String,
    pub edits: Vec<TextEdit>,
}

/// A set of edits across documents, at most one entry per document.
#[derive(Debug)]
pub struct WorkspaceEdit {
    pub changes: Vec<DocumentEdits>,
}

pub open spec fn edit_views(s: Seq<TextEdit>) -> Seq<TextEditView> {
    s.map_values(|e: TextEdit| e@)
}

pub open spec fn change_views(s: Seq<DocumentEdits>) -> Seq<(Seq<char>, Seq<TextEditView>)> {
    s.map_values(|d: DocumentEdits| (d.uri@, edit_views(d.edits@)))
}

/// The edits replacing every name token of `attrs` that reads `name`.
pub open spec fn edits_in(cs: Seq<char>, attrs: Seq<AttrView>, name: Seq<char>, new_name: Seq<char>) -> Seq<TextEditView>
    decreases attrs.len(),
{
    if attrs.len() == 0 {
        Seq::empty()
    } else {
        let prev = edits_in(cs, attrs.drop_last(), name, new_name);
        match name_token(attrs.last()) {
            Some(t) => if t.0 == name {
                prev.push(TextEditView { range: range_at(cs, t.1, t.2), new_text: new_name })
            } else {
                prev
            },
            None => prev,
        }
    }
}

/// The per-document edits renaming `name` across `entries`, for each document
/// that has any, in storage order.
pub open spec fn changes_in(entries: Seq<VaultEntry>, name: Seq<char>, new_name: Seq<char>) -> Seq<(Seq<char>, Seq<TextEditView>)>
    decreases entries.len(),
{
    if entries.len() == 0 {
        Seq::empty()
    } else {
        let prev = changes_in(entries.drop_last(), name, new_name);
        let e = entries.last();
        let ed = edits_in(e.doc.chars_view(), doc_attrs(e.doc), name, new_name);
        if ed.len() > 0 {
            prev.push((e.uri@, ed))
        } else {
            prev
        }
    }
}

/// The edits renaming `name` within one document.
fn document_edits(doc: &Document, name: &str, new_name: &str) -> (r: Vec<TextEdit>)
    ensures
        edit_views(r@) == edits_in(doc.chars_view(), doc_attrs(*doc), name@, new_name@),
{
    let attrs = doc.attributes();
    let ghost av = views(attrs@);
    let ghost cs = doc.chars_view();
    let mut edits: Vec<TextEdit> = Vec::new();
    let mut k: usize = 0;
    proof {
        assert(av.take(0) =~= Seq::<AttrView>::empty());
        assert(edit_views(edits@) =~= edits_in(cs, av.take(0), name@, new_name@));
    }
    while k < attrs.len()
        invariant
            k <= attrs@.len(),
            av == views(attrs@),
            av == doc_attrs(*doc),
            cs == doc.chars_view(),
            edit_views(edits@) == edits_in(cs, av.take(k as int), name@, new_name@),
        decreases attrs@.len() - k,
    {
        proof {
            assert(av.take(k + 1).drop_last() =~= av.take(k as int));
            assert(av.take(k + 1).last() == attrs@[k as int]@);
        }
        match attr_name_token(&attrs[k]) {
            Some((token_name, span)) => {
                if str_eq(token_name.as_str(), name) {
                    let ghost before = edits@;
                    edits.push(
                        TextEdit {
                            range: doc.range_of(span.start, span.end),
                            new_text: String::from_str(new_name),
                        },
                    );
                    proof {
                        assert(edit_views(edits@) =~= edit_views(before).push(edits@.last()@));
                    }
                }
            },
            None => {},
        }
        k += 1;
    }
    proof {
        assert(av.take(attrs@.len() as int) =~= av);
    }
    edits
}

/// Rename: finds the fragment name under the cursor and, across every
/// document of the vault, replaces just the name token of each matching
/// `th:fragment` definition and fragment reference with `new_name`. `None`
/// when there is no fragment name under the cursor or nothing to rewrite.
pub fn rename(vault: &Vault, uri: &str, position: Position, new_name: &str) -> (r: Option<WorkspaceEdit>)
    ensures
        r is None <==> match doc_for(vault.entries(), uri@) {
            Some(d) => match token_under(d, position) {
                Some(t) => changes_in(vault.entries(), t.0, new_name@).len() == 0,
                None => true,
            },
            None => true,
        },
        r matches Some(w) ==> doc_for(vault.entries(), uri@) matches Some(d) && token_under(d, position)
            matches Some(t) && change_views(w.changes@) == changes_in(vault.entries(), t.0, new_name@),
{
    let doc = match vault.get(uri) {
        Some(d) => d,
        None => return None,
    };
    let offset = doc.offset_at(position);
    let name = match name_token_at(doc, offset) {
        Some((name, _span)) => name,
        None => return None,
    };
    let uris = vault.uris();
    vault.uris_are_unique();
    let ghost entries = vault.entries();
    let mut changes: Vec<DocumentEdits> = Vec::new();
    let mut e: usize = 0;
    proof {
        assert(entries.take(0) =~= Seq::<VaultEntry>::empty());
        assert(change_views(changes@) =~= changes_in(entries.take(0), name@, new_name@));
    }
    while e < uris.len()
        invariant
            e <= uris@.len(),
            uris@.len() == entries.len(),
            entries == vault.entries(),
            crate::vault::unique_uris(entries),
            forall|i: int| 0 <= i < uris@.len() ==> #[trigger] uris@[i]@ == entries[i].uri@,
            change_views(changes@) == changes_in(entries.take(e as int), name@, new_name@),
        decreases uris@.len() - e,
    {
        proof {
            lemma_find_entry(entries, uris@[e as int]@, e as int);
            let es = entries.take(e + 1);
            assert(es.drop_last() =~= entries.take(e as int));
            assert(es.last() == entries[e as int]);
        }
        match vault.get(uris[e].as_str()) {
            Some(edit_doc) => {
                let edits = document_edits(edit_doc, name.as_str(), new_name);
                if edits.len() > 0 {
                    let ghost before = changes@;
                    changes.push(DocumentEdits { uri: uris[e].clone(), edits });
                    proof {
                        assert(change_views(changes@) =~= change_views(before).push(
                            (changes@.last().uri@, edit_views(changes@.last().edits@)),
                        ));
                    }
                }
            },
            None => {},
        }
        e += 1;
    }
    proof {
        assert(entries.take(uris@.len() as int) =~= entries);
    }
    if changes.len() == 0 {
        None
    } else {
        Some(WorkspaceEdit { changes })
    }
}

} // verus!

verus! {

proof fn lemma_edits_cover(
    cs: Seq<char>,
    attrs: Seq<AttrView>,
    name: Seq<char>,
    new_name: Seq<char>,
    k: int,
    t: (Seq<char>, int, int),
)
    requires
        0 <= k < attrs.len(),
        name_token(attrs[k]) == Some(t),
        t.0 == name,
    ensures
        edits_in(cs, attrs, name, new_name).contains(
            TextEditView { range: range_at(cs, t.1, t.2), new_text: new_name },
        ),
    decreases attrs.len(),
{
    let x = TextEditView { range: range_at(cs, t.1, t.2), new_text: new_name };
    let prev = edits_in(cs, attrs.drop_last(), name, new_name);
    if k == attrs.len() - 1 {
        let r = prev.push(x);
        assert(r[r.len() - 1] == x);
    } else {
        assert(attrs.drop_last()[k] == attrs[k]);
        lemma_edits_cover(cs, attrs.drop_last(), name, new_name, k, t);
        let j = choose|j: int| 0 <= j < prev.len() && prev[j] == x;
        match name_token(attrs.last()) {
            Some(u) => if u.0 == name {
                let r = prev.push(TextEditView { range: range_at(cs, u.1, u.2), new_text: new_name });
                assert(r[j] == x);
            },
            None => {},
        }
    }
}

proof fn lemma_changes_cover(entries: Seq<VaultEntry>, name: Seq<char>, new_name: Seq<char>, i: int)
    requires
        0 <= i < entries.len(),
        edits_in(entries[i].doc.chars_view(), doc_attrs(entries[i].doc), name, new_name).len() > 0,
    ensures
        changes_in(entries, name, new_name).contains(
            (
                entries[i].uri@,
                edits_in(entries[i].doc.chars_view(), doc_attrs(entries[i].doc), name, new_name),
            ),
        ),
    decreases entries.len(),
{
    let e = entries[i];
    let x = (e.uri@, edits_in(e.doc.chars_view(), doc_attrs(e.doc), name, new_name));
    let prev = changes_in(entries.drop_last(), name, new_name);
    if i == entries.len() - 1 {
        let r = prev.push(x);
        assert(r[r.len() - 1] == x);
    } else {
        assert(entries.drop_last()[i] == entries[i]);
        lemma_changes_cover(entries.drop_last(), name, new_name, i);
        let j = choose|j: int| 0 <= j < prev.len() && prev[j] == x;
        let l = entries.last();
        let ed = edits_in(l.doc.chars_view(), doc_attrs(l.doc), name, new_name);
        if ed.len() > 0 {
            let r = prev.push((l.uri@, ed));
            assert(r[j] == x);
        }
    }
}

/// Rename reaches every occurrence: each name token reading `name`, in any
/// stored document, is rewritten to `new_name` by an edit listed for that
/// document.
pub proof fn law_rename_reaches_every_token(
    entries: Seq<VaultEntry>,
    name: Seq<char>,
    new_name: Seq<char>,
    i: int,
    k: int,
    token: (Seq<char>, int, int),
)
    requires
        0 <= i < entries.len(),
        0 <= k < doc_attrs(entries[i].doc).len(),
        name_token(doc_attrs(entries[i].doc)[k]) == Some(token),
        token.0 == name,
    ensures
        exists|edits: Seq<TextEditView>|
            changes_in(entries, name, new_name).contains((entries[i].uri@, edits)) && #[trigger] edits.contains(
                TextEditView { range: range_at(entries[i].doc.chars_view(), token.1, token.2), new_text: new_name },
            ),
{
    let e = entries[i];
    let cs = e.doc.chars_view();
    lemma_edits_cover(cs, doc_attrs(e.doc), name, new_name, k, token);
    let ed = edits_in(cs, doc_attrs(e.doc), name, new_name);
    assert(ed.len() > 0);
    lemma_changes_cover(entries, name, new_name, i);
    assert(ed.contains(TextEditView { range: range_at(cs, token.1, token.2), new_text: new_name }));
}

} // verus!

verus! {

proof fn lemma_token_at_source(attrs: Seq<AttrView>, offset: int)
    ensures
        token_at(attrs, offset) matches Some(t) ==> exists|k: int|
            0 <= k < attrs.len() && #[trigger] name_token(attrs[k]) == Some(t),
    decreases attrs.len(),
{
    if attrs.len() > 0 {
        lemma_token_at_source(attrs.drop_first(), offset);
        if let Some(t) = token_at(attrs, offset) {
            if name_token(attrs[0]) != Some(t) {
                let k = choose|k: int|
                    0 <= k < attrs.drop_first().len() && #[trigger] name_token(attrs.drop_first()[k])
                        == Some(t);
                assert(attrs[k + 1] == attrs.drop_first()[k]);
            }
        }
    }
}

/// Rename produces edits exactly when rename-prepare finds a name token: the
/// token under the cursor is itself one of the occurrences rewritten.
pub proof fn law_rename_iff_prepare(entries: Seq<VaultEntry>, uri: Seq<char>, position: Position, new_name: Seq<char>)
    requires
        crate::vault::unique_uris(entries),
    ensures
        match doc_for(entries, uri) {
            Some(d) => match token_under(d, position) {
                Some(t) => changes_in(entries, t.0, new_name).len() > 0,
                None => true,
            },
            None => true,
        },
{
    if let Some(d) = doc_for(entries, uri) {
        if let Some(t) = token_under(d, position) {
            let i = crate::vault::find_entry(entries, uri)->0;
            assert(entries[i].doc == d);
            lemma_token_at_source(doc_attrs(d), offset_spec(d.chars_view(), position));
            let k = choose|k: int|
                0 <= k < doc_attrs(d).len() && #[trigger] name_token(doc_attrs(d)[k]) == Some(t);
            law_rename_reaches_every_token(entries, t.0, new_name, i, k, t);
            let c = changes_in(entries, t.0, new_name);
            let x = TextEditView { range: range_at(entries[i].doc.chars_view(), t.1, t.2), new_text: new_name };
            let edits = choose|edits: Seq<TextEditView>| c.contains((entries[i].uri@, edits)) && #[trigger] edits.contains(x);
            assert(c.contains((entries[i].uri@, edits)));
            let j = choose|j: int| 0 <= j < c.len() && c[j] == (entries[i].uri@, edits);
            assert(c.len() > 0);
        }
    }
}

/// How many name tokens of `attrs` read `name`.
pub open spec fn matching_tokens(attrs: Seq<AttrView>, name: Seq<char>) -> nat
    decreases attrs.len(),
{
    if attrs.len() == 0 {
        0
    } else {
        matching_tokens(attrs.drop_last(), name) + match name_token(attrs.last()) {
            Some(t) => if t.0 == name {
                1nat
            } else {
                0nat
            },
            None => 0nat,
        }
    }
}

/// The edit attribute `a` contributes when renaming `name`, if any.
pub open spec fn edit_of(cs: Seq<char>, a: AttrView, name: Seq<char>, new_name: Seq<char>) -> Option<TextEditView> {
    match name_token(a) {
        Some(t) => if t.0 == name {
            Some(TextEditView { range: range_at(cs, t.1, t.2), new_text: new_name })
        } else {
            None
        },
        None => None,
    }
}

/// Every edit of a document rewrites one name token reading `name` to
/// `new_name`, and there is one edit per such token.
pub proof fn law_rename_edits_are_tokens(cs: Seq<char>, attrs: Seq<AttrView>, name: Seq<char>, new_name: Seq<char>)
    ensures
        edits_in(cs, attrs, name, new_name).len() == matching_tokens(attrs, name),
        forall|j: int|
            0 <= j < edits_in(cs, attrs, name, new_name).len() ==> exists|k: int|
                0 <= k < attrs.len() && #[trigger] edit_of(cs, attrs[k], name, new_name) == Some(
                    #[trigger] edits_in(cs, attrs, name, new_name)[j],
                ),
    decreases attrs.len(),
{
    if attrs.len() > 0 {
        let a1 = attrs.drop_last();
        law_rename_edits_are_tokens(cs, a1, name, new_name);
        let prev = edits_in(cs, a1, name, new_name);
        let cur = edits_in(cs, attrs, name, new_name);
        assert forall|j: int| 0 <= j < cur.len() implies exists|k: int|
            0 <= k < attrs.len() && #[trigger] edit_of(cs, attrs[k], name, new_name) == Some(#[trigger] cur[j]) by {
            if j < prev.len() {
                assert(cur[j] == prev[j]);
                let k = choose|k: int|
                    0 <= k < a1.len() && #[trigger] edit_of(cs, a1[k], name, new_name) == Some(#[trigger] prev[j]);
                assert(attrs[k] == a1[k]);
                assert(edit_of(cs, attrs[k], name, new_name) == Some(cur[j]));
            } else {
                assert(attrs[attrs.len() - 1] == attrs.last());
                assert(edit_of(cs, attrs[attrs.len() - 1], name, new_name) == Some(cur[j]));
            }
        }
    }
}

/// The workspace edit lists, for each document with any edit, exactly that
/// document's edits, under its URI.
pub proof fn law_rename_changes_per_document(entries: Seq<VaultEntry>, name: Seq<char>, new_name: Seq<char>)
    ensures
        forall|j: int|
            0 <= j < changes_in(entries, name, new_name).len() ==> exists|i: int|
                0 <= i < entries.len() && #[trigger] changes_in(entries, name, new_name)[j] == (
                    (#[trigger] entries[i]).uri@,
                    edits_in(entries[i].doc.chars_view(), doc_attrs(entries[i].doc), name, new_name),
                ),
    decreases entries.len(),
{
    if entries.len() > 0 {
        let e1 = entries.drop_last();
        law_rename_changes_per_document(e1, name, new_name);
        let prev = changes_in(e1, name, new_name);
        let cur = changes_in(entries, name, new_name);
        assert forall|j: int| 0 <= j < cur.len() implies exists|i: int|
            0 <= i < entries.len() && #[trigger] cur[j] == (
                (#[trigger] entries[i]).uri@,
                edits_in(entries[i].doc.chars_view(), doc_attrs(entries[i].doc), name, new_name),
            ) by {
            if j < prev.len() {
                assert(cur[j] == prev[j]);
                let i = choose|i: int|
                    0 <= i < e1.len() && #[trigger] prev[j] == (
                        (#[trigger] e1[i]).uri@,
                        edits_in(e1[i].doc.chars_view(), doc_attrs(e1[i].doc), name, new_name),
                    );
                assert(entries[i] == e1[i]);
            } else {
                assert(entries[entries.len() - 1] == entries.last());
            }
        }
    }
}

} // verus!
