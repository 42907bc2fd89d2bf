//! Document and workspace symbols.
//!
//! The outline of a document lists every `th:fragment` definition (as a
//! function) and every element `id` (as a field), flat and sorted by position.
//! Workspace symbols expose the vault's fragment index, filtered by a
//! case-insensitive substring query.

use vstd::prelude::*;
use vstd::string::*;
use crate::document::{
    attributes_spec, pos_at, range_at, views, AttrView, Document, LspRange, Position,
};
use crate::fragmentref::{is_fragment_attr, is_fragment_attr_spec};
use crate::text::{
    chars_eq, chars_of, contains_chars, contains_seq, lower_seq, lowered, push_char,
    string_of, trim_range, trim_seq,
};
use crate::vault::{all_defs_spec, def_views, fragment_name_spec, parse_fragment_name, FragmentDefView, Vault};

verus! {

/// The kind of a symbol.
#[derive(Debug, Clone, Copy, PartialEq, Eq, Structural)]
pub enum SymbolKind {
    Function,
    Field,
}

/// One entry of a document outline.
#[derive(Debug)]
pub struct DocumentSymbol {
    pub name: String,
    pub detail: Option<String>,
    pub kind: SymbolKind,
    /// From the attribute name through the end of its value.
    pub range: LspRange,
    /// The part an editor selects when the symbol is chosen.
    pub selection_range: LspRange,
}

pub struct DocumentSymbolView {
    pub name: Seq<char>,
    pub detail: Option<Seq<char>>,
    pub kind: SymbolKind,
    pub range: LspRange,
    pub selection_range: LspRange,
}

impl View for DocumentSymbol {
    type V = DocumentSymbolView;

    open spec fn view(&self) -> DocumentSymbolView {
        DocumentSymbolView {
            name: self.name@,
            detail: match self.detail {
                Some(d) => Some(d@),
                None => None,
            },
            kind: self.kind,
            range: self.range,
            selection_range: self.selection_range,
        }
    }
}

pub open spec fn symbol_views(s: Seq<DocumentSymbol>) -> Seq<DocumentSymbolView> {
    s.map_values(|d: DocumentSymbol| d@)
}

/// A workspace symbol: a fragment definition with its location.
#[derive(Debug)]
pub struct SymbolInformation {
    pub name: String,
    pub kind: SymbolKind,
    pub uri: String,
    pub range: LspRange,
}

pub struct SymbolInformationView {
    pub name: Seq<char>,
    pub kind: SymbolKind,
    pub uri: Seq<char>,
    pub range: LspRange,
}

impl View for SymbolInformation {
    type V = SymbolInformationView;

    open spec fn view(&self) -> SymbolInformationView {
        SymbolInformationView { name: self.name@, kind: self.kind, uri: self.uri@, range: self.range }
    }
}

pub open spec fn info_views(s: Seq<SymbolInformation>) -> Seq<SymbolInformationView> {
    s.map_values(|d: SymbolInformation| d@)
}

/// The outline entry an attribute yields, if any.
pub open spec fn symbol_of(cs: Seq<char>, a: AttrView) -> Option<DocumentSymbolView> {
    let range = LspRange {
        start: pos_at(cs, a.name_range.start as int),
        end: pos_at(cs, a.value_range.end as int),
    };
    if is_fragment_attr_spec(a.name) {
        let name = fragment_name_spec(a.value);
        if name.len() == 0 {
            None
        } else {
            Some(
                DocumentSymbolView {
                    name,
                    detail: Some("th:fragment"@),
                    kind: SymbolKind::Function,
                    range,
                    selection_range: range_at(cs, a.name_range.start as int, a.name_range.end as int),
                },
            )
        }
    } else if lower_seq(a.name) == "id"@ {
        let id = trim_seq(a.value);
        if id.len() == 0 {
            None
        } else {
            Some(
                DocumentSymbolView {
                    name: seq!['#'] + id,
                    detail: None,
                    kind: SymbolKind::Field,
                    range,
                    selection_range: range_at(cs, a.value_range.start as int, a.value_range.end as int),
                },
            )
        }
    } else {
        None
    }
}

/// The outline entries of `attrs`, in attribute order.
pub open spec fn symbols_in(cs: Seq<char>, attrs: Seq<AttrView>) -> Seq<DocumentSymbolView>
    decreases attrs.len(),
{
    if attrs.len() == 0 {
        Seq::empty()
    } else {
        let prev = symbols_in(cs, attrs.drop_last());
        match symbol_of(cs, attrs.last()) {
            Some(s) => prev.push(s),
            None => prev,
        }
    }
}

/// Position order: by line, then by character.
pub open spec fn pos_le(a: Position, b: Position) -> bool {
    a.line < b.line || (a.line == b.line && a.character <= b.character)
}

/// Where a stable insertion of `x` into `s` (sorted by range start) goes.
pub open spec fn symbol_insert_pos(s: Seq<DocumentSymbolView>, x: DocumentSymbolView) -> int
    decreases s.len(),
{
    if s.len() == 0 {
        0
    } else if pos_le(s.last().range.start, x.range.start) {
        s.len() as int
    } else {
        symbol_insert_pos(s.drop_last(), x)
    }
}

/// `s` stably sorted by the start of its range.
pub open spec fn sort_symbols(s: Seq<DocumentSymbolView>) -> Seq<DocumentSymbolView>
    decreases s.len(),
{
    if s.len() == 0 {
        s
    } else {
        let sorted = sort_symbols(s.drop_last());
        let p = symbol_insert_pos(sorted, s.last());
        sorted.take(p).push(s.last()) + sorted.skip(p)
    }
}

/// Ranges start in position order.
pub open spec fn sorted_by_start(s: Seq<DocumentSymbolView>) -> bool {
    forall|i: int, j: int|
        0 <= i < j < s.len() ==> pos_le(#[trigger] s[i].range.start, #[trigger] s[j].range.start)
}

/// The outline of a document.
pub open spec fn outline_spec(cs: Seq<char>, attrs: Seq<AttrView>) -> Seq<DocumentSymbolView> {
    sort_symbols(symbols_in(cs, attrs))
}

proof fn lemma_symbol_insert_pos(s: Seq<DocumentSymbolView>, x: DocumentSymbolView)
    requires
        sorted_by_start(s),
    ensures
        0 <= symbol_insert_pos(s, x) <= s.len(),
        forall|i: int| 0 <= i < symbol_insert_pos(s, x) ==> pos_le(#[trigger] s[i].range.start, x.range.start),
        forall|i: int|
            symbol_insert_pos(s, x) <= i < s.len() ==> !pos_le(#[trigger] s[i].range.start, x.range.start),
    decreases s.len(),
{
    if s.len() > 0 {
        let d = s.drop_last();
        assert(sorted_by_start(d)) by {
            assert forall|i: int, j: int| 0 <= i < j < d.len() implies pos_le(
                #[trigger] d[i].range.start,
                #[trigger] d[j].range.start,
            ) by {
                assert(d[i] == s[i] && d[j] == s[j]);
            }
        }
        lemma_symbol_insert_pos(d, x);
        if !pos_le(s.last().range.start, x.range.start) {
            assert forall|i: int| 0 <= i < symbol_insert_pos(s, x) implies pos_le(
                #[trigger] s[i].range.start,
                x.range.start,
            ) by {
                assert(s[i] == d[i]);
            }
            assert forall|i: int| symbol_insert_pos(s, x) <= i < s.len() implies !pos_le(
                #[trigger] s[i].range.start,
                x.range.start,
            ) by {
                if i < s.len() - 1 {
                    assert(s[i] == d[i]);
                }
            }
        } else {
            assert forall|i: int| 0 <= i < symbol_insert_pos(s, x) implies pos_le(
                #[trigger] s[i].range.start,
                x.range.start,
            ) by {
                if i < s.len() - 1 {
                    assert(pos_le(s[i].range.start, s[s.len() - 1].range.start));
                }
            }
        }
    }
}

/// Insertion sorting yields a sequence sorted by range start.
proof fn lemma_sort_symbols_sorted(s: Seq<DocumentSymbolView>)
    ensures
        sorted_by_start(sort_symbols(s)),
        sort_symbols(s).len() == s.len(),
    decreases s.len(),
{
    if s.len() > 0 {
        let sorted = sort_symbols(s.drop_last());
        lemma_sort_symbols_sorted(s.drop_last());
        let x = s.last();
        lemma_symbol_insert_pos(sorted, x);
        let p = symbol_insert_pos(sorted, x);
        let r = sorted.take(p).push(x) + sorted.skip(p);
        assert(r.len() == s.len());
        assert forall|i: int, j: int| 0 <= i < j < r.len() implies pos_le(
            #[trigger] r[i].range.start,
            #[trigger] r[j].range.start,
        ) by {
            if j < p {
                assert(r[i] == sorted[i] && r[j] == sorted[j]);
            } else if j == p {
                assert(r[i] == sorted[i] && r[j] == x);
            } else if i < p {
                assert(r[i] == sorted[i] && r[j] == sorted[j - 1]);
            } else if i == p {
                assert(r[i] == x && r[j] == sorted[j - 1]);
                assert(!pos_le(sorted[j - 1].range.start, x.range.start));
            } else {
                assert(r[i] == sorted[i - 1] && r[j] == sorted[j - 1]);
            }
        }
    }
}

proof fn lemma_sort_symbols_permutes(s: Seq<DocumentSymbolView>)
    ensures
        sort_symbols(s).to_multiset() == s.to_multiset(),
    decreases s.len(),
{
    broadcast use vstd::seq_lib::group_to_multiset_ensures;
    broadcast use vstd::multiset::group_multiset_axioms;

    if s.len() > 0 {
        let s1 = s.drop_last();
        let sorted = sort_symbols(s1);
        lemma_sort_symbols_permutes(s1);
        let x = s.last();
        lemma_sort_symbols_sorted(s1);
        lemma_symbol_insert_pos(sorted, x);
        let p = symbol_insert_pos(sorted, x);
        let (lo, hi) = (sorted.take(p), sorted.skip(p));
        assert(sorted =~= lo + hi);
        vstd::seq_lib::lemma_multiset_commutative(lo, hi);
        vstd::seq_lib::lemma_multiset_commutative(lo.push(x), hi);
        assert(s =~= s1.push(x));
        assert(lo.push(x).to_multiset().add(hi.to_multiset()) =~= lo.to_multiset().add(
            hi.to_multiset(),
        ).insert(x));
    }
}

proof fn lemma_symbols_in_members(cs: Seq<char>, attrs: Seq<AttrView>, x: DocumentSymbolView)
    ensures
        symbols_in(cs, attrs).contains(x) <==> exists|i: int|
            0 <= i < attrs.len() && #[trigger] symbol_of(cs, attrs[i]) == Some(x),
    decreases attrs.len(),
{
    if attrs.len() > 0 {
        let a1 = attrs.drop_last();
        lemma_symbols_in_members(cs, a1, x);
        let prev = symbols_in(cs, a1);
        if symbols_in(cs, attrs).contains(x) {
            let k = choose|k: int| 0 <= k < symbols_in(cs, attrs).len() && symbols_in(cs, attrs)[k] == x;
            if k < prev.len() {
                assert(prev[k] == x);
                let i = choose|i: int| 0 <= i < a1.len() && #[trigger] symbol_of(cs, a1[i]) == Some(x);
                assert(attrs[i] == a1[i]);
            } else {
                assert(symbol_of(cs, attrs[attrs.len() - 1]) == Some(x));
            }
        }
        if exists|i: int| 0 <= i < attrs.len() && #[trigger] symbol_of(cs, attrs[i]) == Some(x) {
            let i = choose|i: int| 0 <= i < attrs.len() && #[trigger] symbol_of(cs, attrs[i]) == Some(x);
            if i < a1.len() {
                assert(a1[i] == attrs[i]);
                assert(symbol_of(cs, a1[i]) == Some(x));
                let k = choose|k: int| 0 <= k < prev.len() && prev[k] == x;
                match symbol_of(cs, attrs.last()) {
                    Some(y) => assert(prev.push(y)[k] == x),
                    None => {},
                }
            } else {
                assert(attrs.last() == attrs[i]);
                assert(prev.push(x)[prev.len() as int] == x);
            }
        }
    }
}

/// The outline holds exactly the symbols its attributes describe, each as
/// often as described, ordered by where their ranges start: a symbol is in
/// the outline just when some attribute yields it.
pub proof fn law_outline_sorted_permutation(cs: Seq<char>, attrs: Seq<AttrView>)
    ensures
        outline_spec(cs, attrs).to_multiset() == symbols_in(cs, attrs).to_multiset(),
        sorted_by_start(outline_spec(cs, attrs)),
        forall|x: DocumentSymbolView|
            #[trigger] outline_spec(cs, attrs).contains(x) <==> exists|i: int|
                0 <= i < attrs.len() && #[trigger] symbol_of(cs, attrs[i]) == Some(x),
{
    broadcast use vstd::seq_lib::group_to_multiset_ensures;

    lemma_sort_symbols_permutes(symbols_in(cs, attrs));
    lemma_sort_symbols_sorted(symbols_in(cs, attrs));
    assert forall|x: DocumentSymbolView|
        #[trigger] outline_spec(cs, attrs).contains(x) <==> exists|i: int|
            0 <= i < attrs.len() && #[trigger] symbol_of(cs, attrs[i]) == Some(x) by {
        lemma_symbols_in_members(cs, attrs, x);
        assert(outline_spec(cs, attrs).to_multiset().count(x) == symbols_in(cs, attrs).to_multiset().count(x));
    }
}

/// Whether `name` is `id`, ignoring ASCII case.
fn is_id_attr(name: &str) -> (r: bool)
    ensures
        r == (lower_seq(name@) == "id"@),
{
    let l = lowered(name);
    let id = chars_of("id");
    proof {
        reveal_strlit("id");
    }
    chars_eq(&l, &id)
}

/// The outline entry of one attribute.
fn symbol_for(doc: &Document, a: &crate::document::AttrOccurrence) -> (r: Option<DocumentSymbol>)
    ensures
        r matches Some(s) ==> symbol_of(doc.chars_view(), a@) == Some(s@),
        r is None ==> symbol_of(doc.chars_view(), a@) is None,
{
    let range = LspRange {
        start: doc.position_at(a.name_range.start),
        end: doc.position_at(a.value_range.end),
    };
    if is_fragment_attr(a.name.as_str()) {
        let name = parse_fragment_name(a.value.as_str());
        if name.as_str().is_empty() {
            return None;
        }
        Some(
            DocumentSymbol {
                name,
                detail: Some(String::from_str("th:fragment")),
                kind: SymbolKind::Function,
                range,
                selection_range: doc.range_of(a.name_range.start, a.name_range.end),
            },
        )
    } else if is_id_attr(a.name.as_str()) {
        let cs = chars_of(a.value.as_str());
        let (lo, hi) = trim_range(&cs, 0, cs.len());
        proof {
            assert(cs@.subrange(0, cs@.len() as int) =~= cs@);
        }
        if lo == hi {
            return None;
        }
        let mut name = String::new();
        push_char(&mut name, '#');
        let id = string_of(&cs, lo, hi);
        name.append(id.as_str());
        proof {
            assert(name@ =~= seq!['#'] + trim_seq(a.value@));
        }
        Some(
            DocumentSymbol {
                name,
                detail: None,
                kind: SymbolKind::Field,
                range,
                selection_range: doc.range_of(a.value_range.start, a.value_range.end),
            },
        )
    } else {
        None
    }
}

/// Builds the outline for a single document: one function symbol per
/// `th:fragment` definition and one field symbol per element `id`, flat and
/// sorted by start position. `uri` is accepted for symmetry with the request;
/// every range is document-local.
pub fn document_symbols(doc: &Document, uri: &str) -> (r: Vec<DocumentSymbol>)
    ensures
        symbol_views(r@) == outline_spec(
            doc.chars_view(),
            attributes_spec(doc.chars_view(), doc.nodes_view()),
        ),
        sorted_by_start(symbol_views(r@)),
{
    let attrs = doc.attributes();
    let ghost av = views(attrs@);
    let ghost cs = doc.chars_view();
    let mut out: Vec<DocumentSymbol> = Vec::new();
    let mut k: usize = 0;
    proof {
        assert(av.take(0) =~= Seq::<AttrView>::empty());
        assert(symbol_views(out@) =~= sort_symbols(symbols_in(cs, av.take(0))));
    }
    while k < attrs.len()
        invariant
            k <= attrs@.len(),
            av == views(attrs@),
            cs == doc.chars_view(),
            symbol_views(out@) == sort_symbols(symbols_in(cs, av.take(k as int))),
        decreases attrs@.len() - k,
    {
        proof {
            assert(av.take(k + 1).drop_last() =~= av.take(k as int));
            assert(av.take(k + 1).last() == attrs@[k as int]@);
        }
        match symbol_for(doc, &attrs[k]) {
            Some(sym) => {
                let ghost sorted = symbol_views(out@);
                let ghost x = sym@;
                proof {
                    let u = symbols_in(cs, av.take(k + 1));
                    assert(u.drop_last() =~= symbols_in(cs, av.take(k as int)));
                    assert(u.last() == x);
                }
                let mut j = out.len();
                proof {
                    assert(sorted.take(j as int) =~= sorted);
                }
                while j > 0 && !(out[j - 1].range.start.line < sym.range.start.line || (out[j
                    - 1].range.start.line == sym.range.start.line && out[j - 1].range.start.character
                    <= sym.range.start.character))
                    invariant
                        j <= out@.len(),
                        sorted == symbol_views(out@),
                        x == sym@,
                        symbol_insert_pos(sorted, x) == symbol_insert_pos(sorted.take(j as int), x),
                    decreases j,
                {
                    proof {
                        assert(sorted.take(j as int).drop_last() =~= sorted.take(j - 1));
                        assert(sorted.take(j as int).last() == sorted[j - 1]);
                    }
                    j -= 1;
                }
                proof {
                    if j > 0 {
                        assert(sorted.take(j as int).last() == sorted[j - 1]);
                    }
                    assert(symbol_insert_pos(sorted, x) == j);
                }
                out.insert(j, sym);
                proof {
                    assert(symbol_views(out@) =~= sorted.take(j as int).push(x) + sorted.skip(
                        j as int,
                    ));
                }
            },
            None => {},
        }
        k += 1;
    }
    proof {
        assert(av.take(attrs@.len() as int) =~= av);
        lemma_sort_symbols_sorted(symbols_in(cs, av));
    }
    out
}

/// Whether a definition matches a lowercased query.
pub open spec fn query_matches(needle: Seq<char>, name: Seq<char>) -> bool {
    needle.len() == 0 || contains_seq(lower_seq(name), needle)
}

/// The workspace symbols among `defs` for the lowercased query `needle`.
pub open spec fn matching_defs(defs: Seq<FragmentDefView>, needle: Seq<char>) -> Seq<SymbolInformationView>
    decreases defs.len(),
{
    if defs.len() == 0 {
        Seq::empty()
    } else {
        let prev = matching_defs(defs.drop_last(), needle);
        let d = defs.last();
        if query_matches(needle, d.name) {
            prev.push(SymbolInformationView { name: d.name, kind: SymbolKind::Function, uri: d.uri, range: d.range })
        } else {
            prev
        }
    }
}

/// Every fragment definition in the vault whose name contains `query`,
/// ignoring ASCII case. An empty `query` matches every fragment.
pub fn workspace_symbols(vault: &Vault, query: &str) -> (r: Vec<SymbolInformation>)
    ensures
        info_views(r@) == matching_defs(all_defs_spec(vault.entries()), lower_seq(query@)),
{
    let needle = lowered(query);
    let defs = vault.all_fragment_defs();
    let ghost dv = def_views(defs@);
    let mut out: Vec<SymbolInformation> = Vec::new();
    let mut k: usize = 0;
    proof {
        assert(info_views(out@) =~= matching_defs(dv.take(0), needle@));
    }
    while k < defs.len()
        invariant
            k <= defs@.len(),
            dv == def_views(defs@),
            info_views(out@) == matching_defs(dv.take(k as int), needle@),
        decreases defs@.len() - k,
    {
        let d = &defs[k];
        proof {
            assert(dv.take(k + 1).drop_last() =~= dv.take(k as int));
            assert(dv.take(k + 1).last() == d@);
        }
        let keep = if needle.len() == 0 {
            true
        } else {
            let hay = lowered(d.name.as_str());
            contains_chars(&hay, &needle)
        };
        if keep {
            let ghost before = out@;
            out.push(
                SymbolInformation {
                    name: d.name.clone(),
                    kind: SymbolKind::Function,
                    uri: d.uri.clone(),
                    range: d.range,
                },
            );
            proof {
                assert(info_views(out@) =~= info_views(before).push(out@.last()@));
            }
        }
        k += 1;
    }
    proof {
        assert(dv.take(defs@.len() as int) =~= dv);
    }
    out
}

} // verus!

verus! {

/// An empty query matches every fragment definition, in order.
pub proof fn law_empty_query_matches_all(defs: Seq<FragmentDefView>)
    ensures
        matching_defs(defs, Seq::empty()) == defs.map_values(
            |d: FragmentDefView| SymbolInformationView { name: d.name, kind: SymbolKind::Function, uri: d.uri, range: d.range },
        ),
    decreases defs.len(),
{
    if defs.len() > 0 {
        law_empty_query_matches_all(defs.drop_last());
        let f = |d: FragmentDefView| SymbolInformationView { name: d.name, kind: SymbolKind::Function, uri: d.uri, range: d.range };
        assert(defs.map_values(f) =~= defs.drop_last().map_values(f).push(f(defs.last())));
    }
}

/// The workspace symbol a definition is reported as.
pub open spec fn info_of(d: FragmentDefView) -> SymbolInformationView {
    SymbolInformationView { name: d.name, kind: SymbolKind::Function, uri: d.uri, range: d.range }
}

/// `needle` occurs in `hay` starting at some position.
pub open spec fn occurs_in(needle: Seq<char>, hay: Seq<char>) -> bool {
    exists|i: int| 0 <= i <= hay.len() - needle.len() && #[trigger] hay.subrange(i, i + needle.len()) =~= needle
}

/// The workspace search reports a definition exactly when the query is empty
/// or its lowercase form occurs anywhere in the lowercase name (not only at
/// its start): every such definition is listed, and every listed symbol is
/// such a definition.
pub proof fn law_workspace_search_is_substring(defs: Seq<FragmentDefView>, query: Seq<char>)
    ensures
        forall|k: int|
            0 <= k < defs.len() && (query.len() == 0 || occurs_in(lower_seq(query), lower_seq(#[trigger] defs[k].name)))
                ==> matching_defs(defs, lower_seq(query)).contains(info_of(defs[k])),
        forall|j: int|
            0 <= j < matching_defs(defs, lower_seq(query)).len() ==> exists|k: int|
                0 <= k < defs.len() && #[trigger] info_of(defs[k]) == #[trigger] matching_defs(defs, lower_seq(query))[j]
                    && (query.len() == 0 || occurs_in(lower_seq(query), lower_seq(defs[k].name))),
    decreases defs.len(),
{
    let q = lower_seq(query);
    if defs.len() > 0 {
        let d1 = defs.drop_last();
        law_workspace_search_is_substring(d1, query);
        let prev = matching_defs(d1, q);
        let cur = matching_defs(defs, q);
        let last = defs.last();
        assert(contains_seq(lower_seq(last.name), q) == occurs_in(q, lower_seq(last.name))) by {
            if contains_seq(lower_seq(last.name), q) {
                let i = choose|i: int| 0 <= i && i + q.len() <= lower_seq(last.name).len()
                    && #[trigger] lower_seq(last.name).subrange(i, i + q.len()) == q;
                assert(lower_seq(last.name).subrange(i, i + q.len()) =~= q);
            }
            if occurs_in(q, lower_seq(last.name)) {
                let i = choose|i: int| 0 <= i <= lower_seq(last.name).len() - q.len()
                    && #[trigger] lower_seq(last.name).subrange(i, i + q.len()) =~= q;
                assert(lower_seq(last.name).subrange(i, i + q.len()) == q);
            }
        }
        assert forall|k: int|
            0 <= k < defs.len() && (query.len() == 0 || occurs_in(q, lower_seq(#[trigger] defs[k].name)))
                implies cur.contains(info_of(defs[k])) by {
            if k < d1.len() {
                assert(d1[k] == defs[k]);
                let m = choose|m: int| 0 <= m < prev.len() && prev[m] == info_of(d1[k]);
                if query_matches(q, last.name) {
                    assert(prev.push(info_of(last))[m] == prev[m]);
                }
            } else {
                assert(defs[k] == last);
                assert(prev.push(info_of(last))[prev.len() as int] == info_of(last));
            }
        }
        assert forall|j: int| 0 <= j < cur.len() implies exists|k: int|
            0 <= k < defs.len() && #[trigger] info_of(defs[k]) == #[trigger] cur[j] && (query.len() == 0
                || occurs_in(q, lower_seq(defs[k].name))) by {
            if j < prev.len() {
                if query_matches(q, last.name) {
                    assert(cur[j] == prev.push(info_of(last))[j]);
                }
                assert(cur[j] == prev[j]);
                let k = choose|k: int|
                    0 <= k < d1.len() && #[trigger] info_of(d1[k]) == #[trigger] prev[j] && (query.len() == 0
                        || occurs_in(q, lower_seq(d1[k].name)));
                assert(defs[k] == d1[k]);
            } else {
                assert(cur[j] == info_of(last));
                assert(defs[defs.len() - 1] == last);
            }
        }
    }
}

} // verus!
