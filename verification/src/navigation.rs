//! Goto-definition and find-references for Thymeleaf fragments.
//!
//! `th:fragment="name(args)"` **defines** a fragment named `name`;
//! `th:insert`, `th:replace` and `th:include` **reference** one, with values
//! like `~{template :: name}`, `template :: name`, or `:: name`.
//!
//! `goto` (from a reference) jumps to the matching definitions; `references`
//! (from a definition or a reference) lists the definitions and then every
//! reference site across the vault.

use vstd::prelude::*;
use vstd::string::*;
use vstd::utf8::{decode_utf8, encode_utf8};
use crate::document::{
    doc_attrs, offset_spec, range_at, views, AttrView, Document, LspRange,
    Position,
};
use crate::fragmentref::{
    definition_name, definition_range_spec, is_fragment_attr, is_fragment_attr_spec,
    is_reference_attr, is_reference_attr_spec, reference_name, reference_range_spec,
};
use crate::text::str_eq;
use crate::vault::{
    all_defs_spec, defs_in, defs_named, doc_for, fragment_name_spec, lemma_find_entry, located,
    unique_uris, FragmentDefView, Vault, VaultEntry,
};

verus! {

/// A place in a document.
#[derive(Debug)]
pub struct Location {
    pub uri: String,
    pub range: LspRange,
}

impl View for Location {
    type V = (Seq<char>, LspRange);

    open spec fn view(&self) -> (Seq<char>, LspRange) {
        (self.uri@, self.range)
    }
}

pub open spec fn loc_views(s: Seq<Location>) -> Seq<(Seq<char>, LspRange)> {
    s.map_values(|l: Location| l@)
}

/// The characters of the byte range `r` of `v`'s encoding.
pub open spec fn name_in(v: Seq<char>, r: (int, int)) -> Seq<char> {
    decode_utf8(encode_utf8(v).subrange(r.0, r.1))
}

/// The fragment a reference value names.
pub open spec fn referenced_name(v: Seq<char>) -> Option<Seq<char>> {
    match reference_range_spec(encode_utf8(v)) {
        Some(r) => Some(name_in(v, r)),
        None => None,
    }
}

/// The fragment a `th:fragment` value defines.
pub open spec fn defined_name(v: Seq<char>) -> Option<Seq<char>> {
    match definition_range_spec(encode_utf8(v)) {
        Some(r) => Some(name_in(v, r)),
        None => None,
    }
}

/// Whether `offset` lies in the value range of `a` (ends included).
pub open spec fn in_value(a: AttrView, offset: int) -> bool {
    a.value_range.start <= offset <= a.value_range.end
}

/// Whether `offset` lies in the name range of `a` (ends included).
pub open spec fn in_name(a: AttrView, offset: int) -> bool {
    a.name_range.start <= offset <= a.name_range.end
}

/// The first fragment-reference attribute whose value holds `offset`.
pub open spec fn first_reference_hit(attrs: Seq<AttrView>, offset: int) -> Option<AttrView>
    decreases attrs.len(),
{
    if attrs.len() == 0 {
        None
    } else if is_reference_attr_spec(attrs[0].name) && in_value(attrs[0], offset) {
        Some(attrs[0])
    } else {
        first_reference_hit(attrs.drop_first(), offset)
    }
}

/// The fragment `goto` resolves at `offset`.
pub open spec fn goto_name(attrs: Seq<AttrView>, offset: int) -> Option<Seq<char>> {
    match first_reference_hit(attrs, offset) {
        Some(a) => referenced_name(a.value),
        None => None,
    }
}

/// The fragment named by the first attribute under `offset` (on its name or
/// its value) that defines or references one.
pub open spec fn name_at_spec(attrs: Seq<AttrView>, offset: int) -> Option<Seq<char>>
    decreases attrs.len(),
{
    if attrs.len() == 0 {
        None
    } else {
        let a = attrs[0];
        if !(in_name(a, offset) || in_value(a, offset)) {
            name_at_spec(attrs.drop_first(), offset)
        } else if is_fragment_attr_spec(a.name) && defined_name(a.value) is Some {
            defined_name(a.value)
        } else if is_reference_attr_spec(a.name) && referenced_name(a.value) is Some {
            referenced_name(a.value)
        } else {
            name_at_spec(attrs.drop_first(), offset)
        }
    }
}

/// The reference sites naming `name` among the attributes of one document.
pub open spec fn refs_in(uri: Seq<char>, cs: Seq<char>, attrs: Seq<AttrView>, name: Seq<char>) -> Seq<(Seq<char>, LspRange)>
    decreases attrs.len(),
{
    if attrs.len() == 0 {
        Seq::empty()
    } else {
        let prev = refs_in(uri, cs, attrs.drop_last(), name);
        let a = attrs.last();
        if is_reference_attr_spec(a.name) && referenced_name(a.value) == Some(name) {
            prev.push((uri, range_at(cs, a.value_range.start as int, a.value_range.end as int)))
        } else {
            prev
        }
    }
}

/// The reference sites naming `name` across the entries, in storage order.
pub open spec fn refs_across(entries: Seq<VaultEntry>, name: Seq<char>) -> Seq<(Seq<char>, LspRange)>
    decreases entries.len(),
{
    if entries.len() == 0 {
        Seq::empty()
    } else {
        let e = entries.last();
        refs_across(entries.drop_last(), name) + refs_in(e.uri@, e.doc.chars_view(), doc_attrs(e.doc), name)
    }
}

/// The definition locations `goto` reports for the cursor in `d`.
pub open spec fn goto_spec(entries: Seq<VaultEntry>, d: Document, position: Position) -> Option<Seq<(Seq<char>, LspRange)>> {
    match goto_name(doc_attrs(d), offset_spec(d.chars_view(), position)) {
        Some(n) => {
            let defs = defs_named(all_defs_spec(entries), n);
            if defs.len() == 0 {
                None
            } else {
                Some(defs)
            }
        },
        None => None,
    }
}

/// The fragment name of a reference value.
fn reference_target(value: &str) -> (r: Option<&str>)
    ensures
        r matches Some(n) ==> referenced_name(value@) == Some(n@),
        r is None ==> referenced_name(value@) is None,
{
    let r = reference_name(value);
    proof {
        if let Some(n) = r {
            vstd::utf8::encode_utf8_decode_utf8(n@);
        }
    }
    r
}

/// The fragment name of a definition value.
fn definition_target(value: &str) -> (r: Option<&str>)
    ensures
        r matches Some(n) ==> defined_name(value@) == Some(n@),
        r is None ==> defined_name(value@) is None,
{
    let r = definition_name(value);
    proof {
        if let Some(n) = r {
            vstd::utf8::encode_utf8_decode_utf8(n@);
        }
    }
    r
}

/// Goto-definition: with the cursor inside a `th:insert`/`th:replace`/
/// `th:include` value, the locations of the `th:fragment` definitions of the
/// fragment it names; `None` when there are none.
pub fn goto(vault: &Vault, uri: &str, position: Position) -> (r: Option<Vec<Location>>)
    ensures
        r matches Some(v) ==> doc_for(vault.entries(), uri@) matches Some(d) && goto_spec(
            vault.entries(),
            d,
            position,
        ) == Some(loc_views(v@)),
        r is None ==> match doc_for(vault.entries(), uri@) {
            Some(d) => goto_spec(vault.entries(), d, position) is None,
            None => true,
        },
{
    let doc = match vault.get(uri) {
        Some(d) => d,
        None => return None,
    };
    let offset = doc.offset_at(position);
    let attrs = doc.attributes();
    let ghost av = views(attrs@);
    // The fragment-reference attribute whose value holds the cursor.
    let mut k: usize = 0;
    proof {
        assert(av.skip(0) =~= av);
    }
    let mut hit: Option<usize> = None;
    while k < attrs.len()
        invariant_except_break
            hit is None,
        invariant
            k <= attrs@.len(),
            av == views(attrs@),
            first_reference_hit(av, offset as int) == first_reference_hit(av.skip(k as int), offset as int),
        ensures
            hit matches Some(i) ==> i < attrs@.len() && first_reference_hit(av, offset as int) == Some(av[i as int]),
            hit is None ==> first_reference_hit(av, offset as int) is None,
        decreases attrs@.len() - k,
    {
        proof {
            assert(av.skip(k as int).drop_first() =~= av.skip(k + 1));
            assert(av.skip(k as int)[0] == attrs@[k as int]@);
        }
        let a = &attrs[k];
        if is_reference_attr(a.name.as_str()) && offset >= a.value_range.start && offset
            <= a.value_range.end {
            hit = Some(k);
            break;
        }
        k += 1;
    }
    let i = match hit {
        Some(i) => i,
        None => return None,
    };
    let name = match reference_target(attrs[i].value.as_str()) {
        Some(n) => n,
        None => return None,
    };
    let defs = vault.find_fragment_definitions(name);
    let mut locations: Vec<Location> = Vec::new();
    let mut j: usize = 0;
    while j < defs.len()
        invariant
            j <= defs@.len(),
            loc_views(locations@) == located(defs@).take(j as int),
        decreases defs@.len() - j,
    {
        let ghost before = locations@;
        locations.push(Location { uri: defs[j].0.clone(), range: defs[j].1 });
        proof {
            assert(loc_views(locations@) =~= loc_views(before).push(locations@.last()@));
            assert(located(defs@).take(j + 1) =~= located(defs@).take(j as int).push(located(defs@)[j as int]));
        }
        j += 1;
    }
    proof {
        assert(located(defs@).take(defs@.len() as int) =~= located(defs@));
    }
    if locations.len() == 0 {
        None
    } else {
        Some(locations)
    }
}

/// The fragment name relevant to the cursor: that of the first attribute
/// under it (on its name or value) that defines or references a fragment.
fn fragment_name_at(vault: &Vault, uri: &str, position: Position) -> (r: Option<String>)
    ensures
        r matches Some(n) ==> doc_for(vault.entries(), uri@) matches Some(d) && name_at_spec(
            doc_attrs(d),
            offset_spec(d.chars_view(), position),
        ) == Some(n@),
        r is None ==> match doc_for(vault.entries(), uri@) {
            Some(d) => name_at_spec(doc_attrs(d), offset_spec(d.chars_view(), position)) is None,
            None => true,
        },
{
    let doc = match vault.get(uri) {
        Some(d) => d,
        None => return None,
    };
    let offset = doc.offset_at(position);
    let attrs = doc.attributes();
    let ghost av = views(attrs@);
    let mut k: usize = 0;
    proof {
        assert(av.skip(0) =~= av);
    }
    while k < attrs.len()
        invariant
            k <= attrs@.len(),
            av == views(attrs@),
            av == doc_attrs(*doc),
            doc_for(vault.entries(), uri@) == Some(*doc),
            offset as int == offset_spec(doc.chars_view(), position),
            name_at_spec(av, offset as int) == name_at_spec(av.skip(k as int), offset as int),
        decreases attrs@.len() - k,
    {
        proof {
            assert(av.skip(k as int).drop_first() =~= av.skip(k + 1));
            assert(av.skip(k as int)[0] == attrs@[k as int]@);
        }
        let attr = &attrs[k];
        let on_name = offset >= attr.name_range.start && offset <= attr.name_range.end;
        let on_value = offset >= attr.value_range.start && offset <= attr.value_range.end;
        if on_name || on_value {
            if is_fragment_attr(attr.name.as_str()) {
                if let Some(name) = definition_target(attr.value.as_str()) {
                    return Some(String::from_str(name));
                }
            }
            if is_reference_attr(attr.name.as_str()) {
                if let Some(name) = reference_target(attr.value.as_str()) {
                    return Some(String::from_str(name));
                }
            }
        }
        k += 1;
    }
    None
}

/// The reference sites naming `name` within one document.
fn references_in(uri: &String, doc: &Document, name: &str) -> (r: Vec<Location>)
    ensures
        loc_views(r@) == refs_in(uri@, doc.chars_view(), doc_attrs(*doc), name@),
{
    let attrs = doc.attributes();
    let ghost av = views(attrs@);
    let ghost cs = doc.chars_view();
    let mut out: Vec<Location> = Vec::new();
    let mut k: usize = 0;
    proof {
        assert(av.take(0) =~= Seq::<AttrView>::empty());
        assert(loc_views(out@) =~= refs_in(uri@, cs, av.take(0), name@));
    }
    while k < attrs.len()
        invariant
            k <= attrs@.len(),
            av == views(attrs@),
            av == doc_attrs(*doc),
            cs == doc.chars_view(),
            loc_views(out@) == refs_in(uri@, cs, av.take(k as int), name@),
        decreases attrs@.len() - k,
    {
        proof {
            assert(av.take(k + 1).drop_last() =~= av.take(k as int));
            assert(av.take(k + 1).last() == attrs@[k as int]@);
        }
        let attr = &attrs[k];
        if is_reference_attr(attr.name.as_str()) {
            let same = match reference_target(attr.value.as_str()) {
                Some(n) => str_eq(n, name),
                None => false,
            };
            if same {
                let ghost before = out@;
                out.push(
                    Location {
                        uri: uri.clone(),
                        range: doc.range_of(attr.value_range.start, attr.value_range.end),
                    },
                );
                proof {
                    assert(loc_views(out@) =~= loc_views(before).push(out@.last()@));
                }
            }
        }
        k += 1;
    }
    proof {
        assert(av.take(attrs@.len() as int) =~= av);
    }
    out
}

/// The locations of every fragment-reference attribute across the vault
/// whose fragment name is `name`. Every document is searched, including
/// those that define nothing.
fn reference_locations(vault: &Vault, name: &str) -> (r: Vec<Location>)
    ensures
        loc_views(r@) == refs_across(vault.entries(), name@),
{
    let uris = vault.uris();
    vault.uris_are_unique();
    let ghost entries = vault.entries();
    let mut out: Vec<Location> = Vec::new();
    let mut e: usize = 0;
    proof {
        assert(entries.take(0) =~= Seq::<VaultEntry>::empty());
        assert(loc_views(out@) =~= refs_across(entries.take(0), name@));
    }
    while e < uris.len()
        invariant
            e <= uris@.len(),
            uris@.len() == entries.len(),
            entries == vault.entries(),
            unique_uris(entries),
            forall|i: int| 0 <= i < uris@.len() ==> #[trigger] uris@[i]@ == entries[i].uri@,
            loc_views(out@) == refs_across(entries.take(e as int), name@),
        decreases uris@.len() - e,
    {
        proof {
            lemma_find_entry(entries, uris@[e as int]@, e as int);
            let es = entries.take(e + 1);
            assert(es.drop_last() =~= entries.take(e as int));
            assert(es.last() == entries[e as int]);
        }
        match vault.get(uris[e].as_str()) {
            Some(doc) => {
                let mut found = references_in(&uris[e], doc, name);
                let ghost before = out@;
                let ghost added = found@;
                out.append(&mut found);
                proof {
                    assert(loc_views(out@) =~= loc_views(before) + loc_views(added));
                }
            },
            None => {},
        }
        e += 1;
    }
    proof {
        assert(entries.take(uris@.len() as int) =~= entries);
    }
    out
}

/// Find-references: the definitions of the fragment under the cursor (on a
/// definition or a reference), followed by every reference site across the
/// vault; empty when there is no fragment name under the cursor.
pub fn references(vault: &Vault, uri: &str, position: Position) -> (r: Vec<Location>)
    ensures
        loc_views(r@) == match doc_for(vault.entries(), uri@) {
            Some(d) => match name_at_spec(doc_attrs(d), offset_spec(d.chars_view(), position)) {
                Some(n) => if n.len() > 0 {
                    defs_named(all_defs_spec(vault.entries()), n) + refs_across(vault.entries(), n)
                } else {
                    Seq::empty()
                },
                None => Seq::empty(),
            },
            None => Seq::empty(),
        },
{
    let name = match fragment_name_at(vault, uri, position) {
        Some(n) => n,
        None => return Vec::new(),
    };
    if name.as_str().unicode_len() == 0 {
        return Vec::new();
    }
    let defs = vault.find_fragment_definitions(name.as_str());
    let mut out: Vec<Location> = Vec::new();
    let mut j: usize = 0;
    while j < defs.len()
        invariant
            j <= defs@.len(),
            loc_views(out@) == located(defs@).take(j as int),
        decreases defs@.len() - j,
    {
        let ghost before = out@;
        out.push(Location { uri: defs[j].0.clone(), range: defs[j].1 });
        proof {
            assert(loc_views(out@) =~= loc_views(before).push(out@.last()@));
            assert(located(defs@).take(j + 1) =~= located(defs@).take(j as int).push(located(defs@)[j as int]));
        }
        j += 1;
    }
    proof {
        assert(located(defs@).take(defs@.len() as int) =~= located(defs@));
    }
    let mut refs = reference_locations(vault, name.as_str());
    let ghost before = out@;
    let ghost added = refs@;
    out.append(&mut refs);
    proof {
        assert(loc_views(out@) =~= loc_views(before) + loc_views(added));
    }
    out
}

} // verus!

verus! {

proof fn lemma_refs_in_cover(uri: Seq<char>, cs: Seq<char>, attrs: Seq<AttrView>, name: Seq<char>, k: int)
    requires
        0 <= k < attrs.len(),
        is_reference_attr_spec(attrs[k].name),
        referenced_name(attrs[k].value) == Some(name),
    ensures
        refs_in(uri, cs, attrs, name).contains(
            (uri, range_at(cs, attrs[k].value_range.start as int, attrs[k].value_range.end as int)),
        ),
    decreases attrs.len(),
{
    let x = (uri, range_at(cs, attrs[k].value_range.start as int, attrs[k].value_range.end as int));
    let prev = refs_in(uri, cs, attrs.drop_last(), name);
    if k == attrs.len() - 1 {
        let r = prev.push(x);
        assert(r[r.len() - 1] == x);
    } else {
        assert(attrs.drop_last()[k] == attrs[k]);
        lemma_refs_in_cover(uri, cs, attrs.drop_last(), name, k);
        let j = choose|j: int| 0 <= j < prev.len() && prev[j] == x;
        let a = attrs.last();
        if is_reference_attr_spec(a.name) && referenced_name(a.value) == Some(name) {
            let r = prev.push((uri, range_at(cs, a.value_range.start as int, a.value_range.end as int)));
            assert(r[j] == x);
        }
    }
}

proof fn lemma_refs_across_cover(entries: Seq<VaultEntry>, name: Seq<char>, i: int, x: (Seq<char>, LspRange))
    requires
        0 <= i < entries.len(),
        refs_in(entries[i].uri@, entries[i].doc.chars_view(), doc_attrs(entries[i].doc), name).contains(x),
    ensures
        refs_across(entries, name).contains(x),
    decreases entries.len(),
{
    let e = entries.last();
    let prev = refs_across(entries.drop_last(), name);
    let here = refs_in(e.uri@, e.doc.chars_view(), doc_attrs(e.doc), name);
    if i == entries.len() - 1 {
        let j = choose|j: int| 0 <= j < here.len() && here[j] == x;
        assert((prev + here)[prev.len() + j] == x);
    } else {
        assert(entries.drop_last()[i] == entries[i]);
        lemma_refs_across_cover(entries.drop_last(), name, i, x);
        let j = choose|j: int| 0 <= j < prev.len() && prev[j] == x;
        assert((prev + here)[j] == x);
    }
}

/// Find-references searches the whole workspace: every reference attribute
/// naming the fragment, in any stored document, is among the sites reported.
pub proof fn law_references_reach_every_site(entries: Seq<VaultEntry>, name: Seq<char>, i: int, k: int)
    requires
        0 <= i < entries.len(),
        0 <= k < doc_attrs(entries[i].doc).len(),
        is_reference_attr_spec(doc_attrs(entries[i].doc)[k].name),
        referenced_name(doc_attrs(entries[i].doc)[k].value) == Some(name),
    ensures
        refs_across(entries, name).contains(
            (
                entries[i].uri@,
                range_at(
                    entries[i].doc.chars_view(),
                    doc_attrs(entries[i].doc)[k].value_range.start as int,
                    doc_attrs(entries[i].doc)[k].value_range.end as int,
                ),
            ),
        ),
{
    let e = entries[i];
    lemma_refs_in_cover(e.uri@, e.doc.chars_view(), doc_attrs(e.doc), name, k);
    let a = doc_attrs(e.doc)[k];
    lemma_refs_across_cover(
        entries,
        name,
        i,
        (e.uri@, range_at(e.doc.chars_view(), a.value_range.start as int, a.value_range.end as int)),
    );
}

/// Attribute `a` of the document `cs` at `uri` defines the fragment `n`,
/// at the returned location.
pub open spec fn defines_at(uri: Seq<char>, cs: Seq<char>, a: AttrView, n: Seq<char>, loc: (Seq<char>, LspRange)) -> bool {
    &&& is_fragment_attr_spec(a.name)
    &&& fragment_name_spec(a.value) == n
    &&& n.len() > 0
    &&& loc == (uri, range_at(cs, a.value_range.start as int, a.value_range.end as int))
}

/// Some stored document has an attribute defining `n` at `loc`.
pub open spec fn defined_somewhere(entries: Seq<VaultEntry>, n: Seq<char>, loc: (Seq<char>, LspRange)) -> bool {
    exists|i: int, k: int|
        0 <= i < entries.len() && 0 <= k < doc_attrs(entries[i].doc).len() && #[trigger] defines_at(
            entries[i].uri@,
            entries[i].doc.chars_view(),
            doc_attrs(entries[i].doc)[k],
            n,
            loc,
        )
}

/// The definition attribute `a` of the document `cs` at `uri` records.
pub open spec fn def_view(uri: Seq<char>, cs: Seq<char>, a: AttrView) -> FragmentDefView {
    FragmentDefView {
        name: fragment_name_spec(a.value),
        uri,
        range: range_at(cs, a.value_range.start as int, a.value_range.end as int),
    }
}

/// The definition location attribute `a` gives.
pub open spec fn def_loc(uri: Seq<char>, cs: Seq<char>, a: AttrView) -> (Seq<char>, LspRange) {
    (uri, range_at(cs, a.value_range.start as int, a.value_range.end as int))
}

proof fn lemma_defs_in_both(uri: Seq<char>, cs: Seq<char>, attrs: Seq<AttrView>, d: FragmentDefView)
    ensures
        defs_in(uri, cs, attrs).contains(d) <==> exists|k: int|
            0 <= k < attrs.len() && is_fragment_attr_spec(#[trigger] attrs[k].name) && fragment_name_spec(
                attrs[k].value,
            ).len() > 0 && d == def_view(uri, cs, attrs[k]),
    decreases attrs.len(),
{
    if attrs.len() > 0 {
        let a1 = attrs.drop_last();
        lemma_defs_in_both(uri, cs, a1, d);
        let prev = defs_in(uri, cs, a1);
        let cur = defs_in(uri, cs, attrs);
        let a = attrs.last();
        let x = def_view(uri, cs, a);
        let pushed = is_fragment_attr_spec(a.name) && fragment_name_spec(a.value).len() > 0;
        if cur.contains(d) {
            let m = choose|m: int| 0 <= m < cur.len() && cur[m] == d;
            if pushed && m == prev.len() {
                assert(attrs[attrs.len() - 1] == a);
            } else {
                if pushed {
                    assert(cur[m] == prev[m]);
                }
                assert(prev.contains(d));
                let k = choose|k: int|
                    0 <= k < a1.len() && is_fragment_attr_spec(#[trigger] a1[k].name) && fragment_name_spec(
                        a1[k].value,
                    ).len() > 0 && d == def_view(uri, cs, a1[k]);
                assert(attrs[k] == a1[k]);
            }
        }
        if exists|k: int|
            0 <= k < attrs.len() && is_fragment_attr_spec(#[trigger] attrs[k].name) && fragment_name_spec(
                attrs[k].value,
            ).len() > 0 && d == def_view(uri, cs, attrs[k]) {
            let k = choose|k: int|
                0 <= k < attrs.len() && is_fragment_attr_spec(#[trigger] attrs[k].name) && fragment_name_spec(
                    attrs[k].value,
                ).len() > 0 && d == def_view(uri, cs, attrs[k]);
            if k < a1.len() {
                assert(a1[k] == attrs[k]);
                assert(prev.contains(d));
                let m = choose|m: int| 0 <= m < prev.len() && prev[m] == d;
                if pushed {
                    assert(cur[m] == prev[m]);
                }
            } else {
                assert(attrs[k] == a);
                assert(cur[prev.len() as int] == d);
            }
        }
    }
}

proof fn lemma_all_defs_both(entries: Seq<VaultEntry>, d: FragmentDefView)
    ensures
        all_defs_spec(entries).contains(d) <==> exists|i: int|
            0 <= i < entries.len() && defs_in(
                (#[trigger] entries[i]).uri@,
                entries[i].doc.chars_view(),
                doc_attrs(entries[i].doc),
            ).contains(d),
    decreases entries.len(),
{
    if entries.len() > 0 {
        let e1 = entries.drop_last();
        lemma_all_defs_both(e1, d);
        let prev = all_defs_spec(e1);
        let e = entries.last();
        let here = defs_in(e.uri@, e.doc.chars_view(), doc_attrs(e.doc));
        let cur = all_defs_spec(entries);
        assert(cur == prev + here);
        if cur.contains(d) {
            let m = choose|m: int| 0 <= m < cur.len() && cur[m] == d;
            if m < prev.len() {
                assert(prev[m] == d);
                let i = choose|i: int|
                    0 <= i < e1.len() && defs_in(
                        (#[trigger] e1[i]).uri@,
                        e1[i].doc.chars_view(),
                        doc_attrs(e1[i].doc),
                    ).contains(d);
                assert(entries[i] == e1[i]);
            } else {
                assert(here[m - prev.len()] == d);
                assert(entries[entries.len() - 1] == e);
            }
        }
        if exists|i: int|
            0 <= i < entries.len() && defs_in(
                (#[trigger] entries[i]).uri@,
                entries[i].doc.chars_view(),
                doc_attrs(entries[i].doc),
            ).contains(d) {
            let i = choose|i: int|
                0 <= i < entries.len() && defs_in(
                    (#[trigger] entries[i]).uri@,
                    entries[i].doc.chars_view(),
                    doc_attrs(entries[i].doc),
                ).contains(d);
            if i < e1.len() {
                assert(e1[i] == entries[i]);
                let m = choose|m: int| 0 <= m < prev.len() && prev[m] == d;
                assert(cur[m] == d);
            } else {
                assert(entries[i] == e);
                let m = choose|m: int| 0 <= m < here.len() && here[m] == d;
                assert(cur[prev.len() + m] == d);
            }
        }
    }
}

proof fn lemma_defs_named_both(defs: Seq<FragmentDefView>, name: Seq<char>, loc: (Seq<char>, LspRange))
    ensures
        defs_named(defs, name).contains(loc) <==> exists|m: int|
            0 <= m < defs.len() && (#[trigger] defs[m]).name == name && loc == (defs[m].uri, defs[m].range),
    decreases defs.len(),
{
    if defs.len() > 0 {
        let d1 = defs.drop_last();
        lemma_defs_named_both(d1, name, loc);
        let prev = defs_named(d1, name);
        let cur = defs_named(defs, name);
        let last = defs.last();
        let pushed = last.name == name;
        if cur.contains(loc) {
            let j = choose|j: int| 0 <= j < cur.len() && cur[j] == loc;
            if pushed && j == prev.len() {
                assert(defs[defs.len() - 1] == last);
            } else {
                if pushed {
                    assert(cur[j] == prev[j]);
                }
                assert(prev.contains(loc));
                let m = choose|m: int| 0 <= m < d1.len() && (#[trigger] d1[m]).name == name && loc == (d1[m].uri, d1[m].range);
                assert(defs[m] == d1[m]);
            }
        }
        if exists|m: int| 0 <= m < defs.len() && (#[trigger] defs[m]).name == name && loc == (defs[m].uri, defs[m].range) {
            let m = choose|m: int| 0 <= m < defs.len() && (#[trigger] defs[m]).name == name && loc == (defs[m].uri, defs[m].range);
            if m < d1.len() {
                assert(d1[m] == defs[m]);
                assert(prev.contains(loc));
                let j = choose|j: int| 0 <= j < prev.len() && prev[j] == loc;
                if pushed {
                    assert(cur[j] == prev[j]);
                }
            } else {
                assert(defs[m] == last);
                assert(cur[prev.len() as int] == loc);
            }
        }
    }
}

proof fn lemma_goto_result_defined(entries: Seq<VaultEntry>, d: Document, position: Position, n: Seq<char>, j: int)
    requires
        goto_name(doc_attrs(d), offset_spec(d.chars_view(), position)) == Some(n),
        goto_spec(entries, d, position) is Some,
        0 <= j < goto_spec(entries, d, position)->0.len(),
    ensures
        defined_somewhere(entries, n, goto_spec(entries, d, position)->0[j]),
{
    let all = all_defs_spec(entries);
    let locs = defs_named(all, n);
    let v = goto_spec(entries, d, position)->0;
    assert(v == locs);
    lemma_defs_named_both(all, n, v[j]);
    assert(locs.contains(v[j]));
    let m = choose|m: int| 0 <= m < all.len() && (#[trigger] all[m]).name == n && v[j] == (all[m].uri, all[m].range);
    let df = all[m];
    lemma_all_defs_both(entries, df);
    assert(all.contains(df));
    let i = choose|i: int|
        0 <= i < entries.len() && defs_in(
            (#[trigger] entries[i]).uri@,
            entries[i].doc.chars_view(),
            doc_attrs(entries[i].doc),
        ).contains(df);
    let e = entries[i];
    lemma_defs_in_both(e.uri@, e.doc.chars_view(), doc_attrs(e.doc), df);
    let k = choose|k: int|
        0 <= k < doc_attrs(e.doc).len() && is_fragment_attr_spec(#[trigger] doc_attrs(e.doc)[k].name)
            && fragment_name_spec(doc_attrs(e.doc)[k].value).len() > 0 && df == def_view(e.uri@, e.doc.chars_view(), doc_attrs(e.doc)[k]);
    assert(defines_at(entries[i].uri@, entries[i].doc.chars_view(), doc_attrs(entries[i].doc)[k], n, v[j]));
}

/// Goto-definition finds every definition: with the cursor on a reference to
/// the fragment `n`, the locations returned are exactly the locations of the
/// `th:fragment` definitions named `n`, in every stored document; each one
/// is listed.
pub proof fn law_goto_finds_every_definition(entries: Seq<VaultEntry>, d: Document, position: Position)
    ensures
        goto_name(doc_attrs(d), offset_spec(d.chars_view(), position)) matches Some(n) ==> forall|i: int, k: int|
            0 <= i < entries.len() && 0 <= k < doc_attrs(entries[i].doc).len() && defines_at(
                entries[i].uri@,
                entries[i].doc.chars_view(),
                #[trigger] doc_attrs(entries[i].doc)[k],
                n,
                def_loc(entries[i].uri@, entries[i].doc.chars_view(), doc_attrs(entries[i].doc)[k]),
            ) ==> (goto_spec(entries, d, position) matches Some(v) && v.contains(
                def_loc(entries[i].uri@, entries[i].doc.chars_view(), doc_attrs(entries[i].doc)[k]),
            )),
        forall|j: int|
            0 <= j < goto_spec(entries, d, position)->0.len() && goto_spec(entries, d, position) is Some
                && goto_name(doc_attrs(d), offset_spec(d.chars_view(), position)) is Some
                ==> defined_somewhere(
                entries,
                goto_name(doc_attrs(d), offset_spec(d.chars_view(), position))->0,
                #[trigger] goto_spec(entries, d, position)->0[j],
            ),
{
    if let Some(n) = goto_name(doc_attrs(d), offset_spec(d.chars_view(), position)) {
        let all = all_defs_spec(entries);
        let locs = defs_named(all, n);
        assert forall|i: int, k: int|
            0 <= i < entries.len() && 0 <= k < doc_attrs(entries[i].doc).len() && defines_at(
                entries[i].uri@,
                entries[i].doc.chars_view(),
                #[trigger] doc_attrs(entries[i].doc)[k],
                n,
                def_loc(entries[i].uri@, entries[i].doc.chars_view(), doc_attrs(entries[i].doc)[k]),
            ) implies (goto_spec(entries, d, position) matches Some(v) && v.contains(
                def_loc(entries[i].uri@, entries[i].doc.chars_view(), doc_attrs(entries[i].doc)[k]),
            )) by {
            let e = entries[i];
            let a = doc_attrs(e.doc)[k];
            let df = def_view(e.uri@, e.doc.chars_view(), a);
            lemma_defs_in_both(e.uri@, e.doc.chars_view(), doc_attrs(e.doc), df);
            lemma_all_defs_both(entries, df);
            assert(all.contains(df));
            let m = choose|m: int| 0 <= m < all.len() && all[m] == df;
            lemma_defs_named_both(all, n, (df.uri, df.range));
            assert(locs.contains((df.uri, df.range)));
            assert(locs.len() > 0);
        }
    }
    assert forall|j: int|
        0 <= j < goto_spec(entries, d, position)->0.len() && goto_spec(entries, d, position) is Some
            && goto_name(doc_attrs(d), offset_spec(d.chars_view(), position)) is Some implies defined_somewhere(
        entries,
        goto_name(doc_attrs(d), offset_spec(d.chars_view(), position))->0,
        #[trigger] goto_spec(entries, d, position)->0[j],
    ) by {
        lemma_goto_result_defined(
            entries,
            d,
            position,
            goto_name(doc_attrs(d), offset_spec(d.chars_view(), position))->0,
            j,
        );
    }
}

} // verus!
