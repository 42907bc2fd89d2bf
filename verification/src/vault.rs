//! Workspace / document store: holds parsed [`Document`]s keyed by URI and
//! provides a fragment index for navigation features.

use std::path::PathBuf;
use vstd::prelude::*;
use vstd::string::*;
use vstd::utf8::{encode_scalar, encode_utf8};
use crate::document::{
    attributes_spec, change_spec, range_at, text_fits, views, AttrView, Document, LspRange,
    Position,
};
use crate::fragmentref::{
    definition_token, find_byte, is_fragment_attr, is_fragment_attr_spec, skip_ws_back, skip_ws_fwd,
    trim_window_spec,
};
use crate::text::{
    chars_of, find_char, find_char_spec, is_ascii_ws, is_unicode_ws, lead_ws, lemma_encode_concat,
    lemma_lead_ws_bound, lemma_trail_ws_bound, prefix_bytes, str_eq, string_of, trail_ws, trim_range,
    trim_seq, trim_start_seq,
};

verus! {

#[verifier::external_type_specification]
#[verifier::external_body]
pub struct ExPathBuf(PathBuf);

/// The fragment name of a `th:fragment` value: trimmed, cut at the first `(`,
/// trimmed again.
pub open spec fn fragment_name_spec(value: Seq<char>) -> Seq<char> {
    let t = trim_seq(value);
    let cut = match find_char_spec(t, '(') {
        Some(i) => t.take(i),
        None => t,
    };
    trim_seq(cut)
}

/// Extracts the fragment name from a `th:fragment` value, dropping any
/// parameter list, e.g. `"header(title)"` -> `"header"`.
pub fn parse_fragment_name(value: &str) -> (r: String)
    ensures
        r@ == fragment_name_spec(value@),
{
    let cs = chars_of(value);
    let (lo, hi) = trim_range(&cs, 0, cs.len());
    proof {
        assert(cs@.subrange(0, cs@.len() as int) =~= value@);
    }
    let end = match find_char(&cs, lo, hi, '(') {
        Some(idx) => idx,
        None => hi,
    };
    proof {
        let t = cs@.subrange(lo as int, hi as int);
        match find_char_spec(t, '(') {
            Some(i) => {
                assert(t.take(i) =~= cs@.subrange(lo as int, end as int));
            },
            None => {
                assert(t =~= cs@.subrange(lo as int, end as int));
            },
        }
    }
    let (a, b) = trim_range(&cs, lo, end);
    string_of(&cs, a, b)
}

/// A `th:fragment` definition discovered somewhere in the workspace.
#[derive(Debug)]
pub struct FragmentDef {
    /// The fragment name (without its parameter list).
    pub name: String,
    /// The document that defines it.
    pub uri: String,
    /// The range of the fragment *value*.
    pub range: LspRange,
}

/// The spec view of a fragment definition.
pub struct FragmentDefView {
    pub name: Seq<char>,
    pub uri: Seq<char>,
    pub range: LspRange,
}

impl View for FragmentDef {
    type V = FragmentDefView;

    open spec fn view(&self) -> FragmentDefView {
        FragmentDefView { name: self.name@, uri: self.uri@, range: self.range }
    }
}

/// A stored document and its URI.
pub struct VaultEntry {
    pub uri: String,
    pub doc: Document,
}

/// The definitions among `attrs` (the attributes of the document `cs` at
/// `uri`): every `th:fragment` attribute whose name is non-empty.
pub open spec fn defs_in(uri: Seq<char>, cs: Seq<char>, attrs: Seq<AttrView>) -> Seq<FragmentDefView>
    decreases attrs.len(),
{
    if attrs.len() == 0 {
        Seq::empty()
    } else {
        let prev = defs_in(uri, cs, attrs.drop_last());
        let a = attrs.last();
        let name = fragment_name_spec(a.value);
        if is_fragment_attr_spec(a.name) && name.len() > 0 {
            prev.push(
                FragmentDefView {
                    name,
                    uri,
                    range: range_at(cs, a.value_range.start as int, a.value_range.end as int),
                },
            )
        } else {
            prev
        }
    }
}

/// The views of a sequence of definitions.
pub open spec fn def_views(s: Seq<FragmentDef>) -> Seq<FragmentDefView> {
    s.map_values(|d: FragmentDef| d@)
}

/// The (uri, range) views of located definitions.
pub open spec fn located(s: Seq<(String, LspRange)>) -> Seq<(Seq<char>, LspRange)> {
    s.map_values(|p: (String, LspRange)| (p.0@, p.1))
}

/// The locations of the definitions named `name`, in order.
pub open spec fn defs_named(defs: Seq<FragmentDefView>, name: Seq<char>) -> Seq<(Seq<char>, LspRange)>
    decreases defs.len(),
{
    if defs.len() == 0 {
        Seq::empty()
    } else {
        let prev = defs_named(defs.drop_last(), name);
        if defs.last().name == name {
            prev.push((defs.last().uri, defs.last().range))
        } else {
            prev
        }
    }
}

/// The definitions of the entries, in entry order.
pub open spec fn all_defs_spec(entries: Seq<VaultEntry>) -> Seq<FragmentDefView>
    decreases entries.len(),
{
    if entries.len() == 0 {
        Seq::empty()
    } else {
        let e = entries.last();
        all_defs_spec(entries.drop_last()) + defs_in(
            e.uri@,
            e.doc.chars_view(),
            attributes_spec(e.doc.chars_view(), e.doc.nodes_view()),
        )
    }
}

/// The position of the entry for `uri`.
pub open spec fn find_entry(entries: Seq<VaultEntry>, uri: Seq<char>) -> Option<int> {
    if exists|i: int| 0 <= i < entries.len() && #[trigger] entries[i].uri@ == uri {
        Some(choose|i: int| 0 <= i < entries.len() && #[trigger] entries[i].uri@ == uri)
    } else {
        None
    }
}

/// The document stored for `uri`.
pub open spec fn doc_for(entries: Seq<VaultEntry>, uri: Seq<char>) -> Option<Document> {
    match find_entry(entries, uri) {
        Some(i) => Some(entries[i].doc),
        None => None,
    }
}

/// `after` is `before` after storing a fresh parse of `text` for `uri`: the entry
/// for `uri` is replaced in place, or appended when there was none.
pub open spec fn upserted(before: Seq<VaultEntry>, after: Seq<VaultEntry>, uri: Seq<char>, text: Seq<char>) -> bool {
    match find_entry(before, uri) {
        Some(i) => {
            &&& after.len() == before.len()
            &&& forall|j: int| 0 <= j < before.len() && j != i ==> #[trigger] after[j] == before[j]
            &&& after[i].uri@ == uri
            &&& after[i].doc.chars_view() == text
        },
        None => {
            &&& after.len() == before.len() + 1
            &&& forall|j: int| 0 <= j < before.len() ==> #[trigger] after[j] == before[j]
            &&& after[before.len() as int].uri@ == uri
            &&& after[before.len() as int].doc.chars_view() == text
        },
    }
}

/// `after` is `before` with one content change applied to the document for `uri`.
pub open spec fn changed(
    before: Seq<VaultEntry>,
    after: Seq<VaultEntry>,
    uri: Seq<char>,
    start: Option<Position>,
    end: Option<Position>,
    text: Seq<char>,
) -> bool {
    match find_entry(before, uri) {
        Some(i) => {
            &&& after.len() == before.len()
            &&& forall|j: int| 0 <= j < before.len() && j != i ==> #[trigger] after[j] == before[j]
            &&& after[i].uri@ == uri
            &&& after[i].doc.chars_view() == change_spec(before[i].doc.chars_view(), start, end, text)
        },
        None => false,
    }
}

/// `after` is `before` without the entry for `uri`.
pub open spec fn removed(before: Seq<VaultEntry>, after: Seq<VaultEntry>, uri: Seq<char>) -> bool {
    match find_entry(before, uri) {
        Some(i) => after == before.remove(i),
        None => after == before,
    }
}

pub proof fn lemma_find_entry(entries: Seq<VaultEntry>, uri: Seq<char>, i: int)
    requires
        unique_uris(entries),
        0 <= i < entries.len(),
        entries[i].uri@ == uri,
    ensures
        find_entry(entries, uri) == Some(i),
{
}

/// In-memory store of all open/known documents plus the workspace root.
pub struct Vault {
    docs: Vec<VaultEntry>,
    root: Option<PathBuf>,
}

/// No URI occurs twice.
pub open spec fn unique_uris(entries: Seq<VaultEntry>) -> bool {
    forall|i: int, j: int|
        0 <= i < entries.len() && 0 <= j < entries.len() && i != j ==> #[trigger] entries[i].uri@
            != #[trigger] entries[j].uri@
}

impl Vault {
    #[verifier::type_invariant]
    spec fn inv(self) -> bool {
        unique_uris(self.docs@)
    }

    /// The stored documents, in insertion order.
    pub closed spec fn entries(&self) -> Seq<VaultEntry> {
        self.docs@
    }

    /// The workspace root directory the vault was created with.
    pub closed spec fn root_path(&self) -> Option<PathBuf> {
        self.root
    }

    /// Creates an empty vault rooted at `root` (if known).
    pub fn new(root: Option<PathBuf>) -> (v: Vault)
        ensures
            v.entries().len() == 0,
            v.root_path() == root,
    {
        Vault { docs: Vec::new(), root }
    }

    /// The workspace root directory, if one was provided.
    pub fn root(&self) -> (r: Option<&PathBuf>)
        ensures
            r matches Some(p) ==> self.root_path() == Some(*p),
            r is None ==> self.root_path() is None,
    {
        match &self.root {
            Some(p) => Some(p),
            None => None,
        }
    }

    /// The index of the entry for `uri`.
    fn index_of(&self, uri: &str) -> (r: Option<usize>)
        ensures
            r matches Some(i) ==> i < self.entries().len() && self.entries()[i as int].uri@ == uri@,
            r is None ==> forall|i: int| 0 <= i < self.entries().len() ==> #[trigger] self.entries()[i].uri@ != uri@,
    {
        let mut i: usize = 0;
        while i < self.docs.len()
            invariant
                i <= self.docs@.len(),
                forall|k: int| 0 <= k < i ==> #[trigger] self.docs@[k].uri@ != uri@,
            decreases self.docs@.len() - i,
        {
            if str_eq(self.docs[i].uri.as_str(), uri) {
                return Some(i);
            }
            i += 1;
        }
        None
    }

    /// No URI is stored twice.
    pub fn uris_are_unique(&self)
        ensures
            unique_uris(self.entries()),
    {
        proof {
            use_type_invariant(self);
        }
    }

    /// Returns the document for `uri`, if present.
    pub fn get(&self, uri: &str) -> (r: Option<&Document>)
        ensures
            r matches Some(d) ==> doc_for(self.entries(), uri@) == Some(*d),
            r is None ==> doc_for(self.entries(), uri@) is None,
    {
        proof {
            use_type_invariant(self);
        }
        match self.index_of(uri) {
            Some(i) => {
                proof {
                    lemma_find_entry(self.docs@, uri@, i as int);
                }
                Some(&self.docs[i].doc)
            },
            None => None,
        }
    }

    /// Inserts or replaces the document for `uri`, (re)parsing `text`.
    pub fn upsert(&mut self, uri: String, text: String)
        requires
            text_fits(text@),
        ensures
            upserted(old(self).entries(), final(self).entries(), uri@, text@),
            final(self).root_path() == old(self).root_path(),
    {
        proof {
            use_type_invariant(&*self);
        }
        match self.index_of(uri.as_str()) {
            Some(i) => {
                proof {
                    lemma_find_entry(self.docs@, uri@, i as int);
                }
                let doc = Document::new(text);
                let mut docs: Vec<VaultEntry> = Vec::new();
                std::mem::swap(&mut docs, &mut self.docs);
                docs.set(i, VaultEntry { uri, doc });
                proof {
                    assert forall|a: int, b: int|
                        0 <= a < docs@.len() && 0 <= b < docs@.len() && a != b implies #[trigger] docs@[a].uri@
                        != #[trigger] docs@[b].uri@ by {
                        if a != i && b != i {
                            assert(docs@[a] == old(self).docs@[a]);
                            assert(docs@[b] == old(self).docs@[b]);
                        } else if a == i {
                            assert(docs@[b] == old(self).docs@[b]);
                        } else {
                            assert(docs@[a] == old(self).docs@[a]);
                        }
                    }
                }
                self.docs = docs;
            },
            None => {
                let doc = Document::new(text);
                let mut docs: Vec<VaultEntry> = Vec::new();
                std::mem::swap(&mut docs, &mut self.docs);
                docs.push(VaultEntry { uri, doc });
                proof {
                    assert forall|a: int, b: int|
                        0 <= a < docs@.len() && 0 <= b < docs@.len() && a != b implies #[trigger] docs@[a].uri@
                        != #[trigger] docs@[b].uri@ by {
                        if a < old(self).docs@.len() && b < old(self).docs@.len() {
                            assert(docs@[a] == old(self).docs@[a]);
                            assert(docs@[b] == old(self).docs@[b]);
                        } else if a < old(self).docs@.len() {
                            assert(docs@[a] == old(self).docs@[a]);
                            assert(old(self).entries()[a].uri@ != uri@);
                        } else {
                            assert(docs@[b] == old(self).docs@[b]);
                            assert(old(self).entries()[b].uri@ != uri@);
                        }
                    }
                }
                self.docs = docs;
            },
        }
    }

    /// Removes the document for `uri`, if present.
    pub fn remove(&mut self, uri: &str)
        ensures
            removed(old(self).entries(), final(self).entries(), uri@),
            final(self).root_path() == old(self).root_path(),
    {
        proof {
            use_type_invariant(&*self);
        }
        match self.index_of(uri) {
            Some(i) => {
                proof {
                    lemma_find_entry(self.docs@, uri@, i as int);
                }
                let mut docs: Vec<VaultEntry> = Vec::new();
                std::mem::swap(&mut docs, &mut self.docs);
                docs.remove(i);
                proof {
                    assert forall|a: int, b: int|
                        0 <= a < docs@.len() && 0 <= b < docs@.len() && a != b implies #[trigger] docs@[a].uri@
                        != #[trigger] docs@[b].uri@ by {
                        let oa = if a < i { a } else { a + 1 };
                        let ob = if b < i { b } else { b + 1 };
                        assert(docs@[a] == old(self).docs@[oa]);
                        assert(docs@[b] == old(self).docs@[ob]);
                    }
                }
                self.docs = docs;
            },
            None => {},
        }
    }

    /// Applies one content change to the document for `uri` (see
    /// [`Document::apply_change`]). Returns `false`, changing nothing, when
    /// there is no such document or when the changed text would exceed the
    /// parser's 32-bit offsets.
    pub fn apply_change(&mut self, uri: &str, start: Option<Position>, end: Option<Position>, text: &str) -> (r: bool)
        ensures
            r == match find_entry(old(self).entries(), uri@) {
                Some(i) => text_fits(
                    change_spec(old(self).entries()[i].doc.chars_view(), start, end, text@),
                ),
                None => false,
            },
            r ==> changed(old(self).entries(), final(self).entries(), uri@, start, end, text@),
            !r ==> final(self).entries() == old(self).entries(),
            final(self).root_path() == old(self).root_path(),
    {
        proof {
            use_type_invariant(&*self);
        }
        let i = match self.index_of(uri) {
            Some(i) => i,
            None => return false,
        };
        proof {
            lemma_find_entry(self.docs@, uri@, i as int);
        }
        let doc = &self.docs[i].doc;
        let total = doc.text().as_bytes().len();
        let add = text.as_bytes().len();
        let ghost cs = doc.chars_view();
        proof {
            crate::text::lemma_prefix_bytes_all(cs);
        }
        let fits = {
            match (start, end) {
                (Some(s), Some(e)) => {
                    let a = doc.offset_at(s);
                    let b = doc.offset_at(e);
                    let ghost ac = crate::document::offset_char_index(cs, s.line as nat, s.character as nat);
                    let ghost bc = crate::document::offset_char_index(cs, e.line as nat, e.character as nat);
                    proof {
                        crate::document::lemma_offset_char_index_range(cs, s.line as nat, s.character as nat);
                        crate::document::lemma_offset_char_index_range(cs, e.line as nat, e.character as nat);
                        let lo = if ac <= bc { ac } else { bc };
                        let hi = if ac <= bc { bc } else { ac };
                        lemma_encode_concat(cs.take(lo) + text@, cs.skip(hi));
                        lemma_encode_concat(cs.take(lo), text@);
                        lemma_encode_concat(cs.take(hi), cs.skip(hi));
                        assert(cs.take(hi) + cs.skip(hi) =~= cs);
                        crate::text::lemma_prefix_bytes_mono(cs, lo, hi);
                        crate::text::lemma_prefix_bytes_mono(cs, hi, cs.len() as int);
                        if ac < bc {
                            crate::text::lemma_prefix_bytes_mono(cs, ac + 1, bc);
                        }
                        if bc < ac {
                            crate::text::lemma_prefix_bytes_mono(cs, bc + 1, ac);
                        }
                    }
                    let (lo, hi) = if a <= b {
                        (a, b)
                    } else {
                        (b, a)
                    };
                    add <= 0xffff_ffff && (lo as u64) + (add as u64) + ((total - hi) as u64) <= 0xffff_ffff
                },
                _ => add <= 0xffff_ffff,
            }
        };
        if !fits {
            return false;
        }
        let mut docs: Vec<VaultEntry> = Vec::new();
        std::mem::swap(&mut docs, &mut self.docs);
        let mut entry = docs.remove(i);
        entry.doc.apply_change(start, end, text);
        docs.insert(i, entry);
        proof {
            assert forall|a: int, b: int|
                0 <= a < docs@.len() && 0 <= b < docs@.len() && a != b implies #[trigger] docs@[a].uri@
                != #[trigger] docs@[b].uri@ by {
                if a != i {
                    assert(docs@[a] == old(self).docs@[a]);
                }
                if b != i {
                    assert(docs@[b] == old(self).docs@[b]);
                }
            }
            assert forall|j: int| 0 <= j < old(self).entries().len() && j != i implies #[trigger] docs@[j]
                == old(self).entries()[j] by {
            }
        }
        self.docs = docs;
        true
    }

    /// All fragment definitions across every known document.
    pub fn all_fragment_defs(&self) -> (r: Vec<FragmentDef>)
        ensures
            def_views(r@) == all_defs_spec(self.entries()),
    {
        let mut out: Vec<FragmentDef> = Vec::new();
        let mut e: usize = 0;
        proof {
            assert(def_views(out@) =~= all_defs_spec(self.docs@.take(0)));
        }
        while e < self.docs.len()
            invariant
                e <= self.docs@.len(),
                def_views(out@) == all_defs_spec(self.docs@.take(e as int)),
            decreases self.docs@.len() - e,
        {
            let entry = &self.docs[e];
            let doc = &entry.doc;
            let attrs = doc.attributes();
            let ghost base = def_views(out@);
            let ghost av = views(attrs@);
            let mut k: usize = 0;
            proof {
                assert(av.take(0) =~= Seq::<AttrView>::empty());
                assert(base + defs_in(entry.uri@, doc.chars_view(), av.take(0)) =~= base);
            }
            while k < attrs.len()
                invariant
                    k <= attrs@.len(),
                    av == views(attrs@),
                    def_views(out@) == base + defs_in(entry.uri@, doc.chars_view(), av.take(k as int)),
                decreases attrs@.len() - k,
            {
                let attr = &attrs[k];
                proof {
                    assert(av.take(k + 1).drop_last() =~= av.take(k as int));
                    assert(av.take(k + 1).last() == attr@);
                }
                if is_fragment_attr(attr.name.as_str()) {
                    let frag_name = parse_fragment_name(attr.value.as_str());
                    if !frag_name.as_str().is_empty() {
                        let range = doc.range_of(attr.value_range.start, attr.value_range.end);
                        let ghost before = out@;
                        out.push(FragmentDef { name: frag_name, uri: entry.uri.clone(), range });
                        proof {
                            assert(def_views(out@) =~= def_views(before).push(out@.last()@));
                        }
                    }
                }
                k += 1;
            }
            proof {
                assert(av.take(attrs@.len() as int) =~= av);
                let es = self.docs@.take(e + 1);
                assert(es.drop_last() =~= self.docs@.take(e as int));
                assert(es.last() == self.docs@[e as int]);
            }
            e += 1;
        }
        proof {
            assert(self.docs@.take(self.docs@.len() as int) =~= self.docs@);
        }
        out
    }

    /// Locates the definition(s) of the fragment named `name`.
    pub fn find_fragment_definitions(&self, name: &str) -> (r: Vec<(String, LspRange)>)
        ensures
            located(r@) == defs_named(all_defs_spec(self.entries()), name@),
    {
        let defs = self.all_fragment_defs();
        let ghost dv = def_views(defs@);
        let mut out: Vec<(String, LspRange)> = Vec::new();
        let mut k: usize = 0;
        proof {
            assert(located(out@) =~= defs_named(dv.take(0), name@));
        }
        while k < defs.len()
            invariant
                k <= defs@.len(),
                dv == def_views(defs@),
                located(out@) == defs_named(dv.take(k as int), name@),
            decreases defs@.len() - k,
        {
            let d = &defs[k];
            proof {
                assert(dv.take(k + 1).drop_last() =~= dv.take(k as int));
                assert(dv.take(k + 1).last() == d@);
            }
            if str_eq(d.name.as_str(), name) {
                let ghost before = out@;
                out.push((d.uri.clone(), d.range));
                proof {
                    assert(located(out@) =~= located(before).push((d.uri@, d.range)));
                }
            }
            k += 1;
        }
        proof {
            assert(dv.take(defs@.len() as int) =~= dv);
        }
        out
    }

    /// Every known document URI, in storage order.
    pub fn uris(&self) -> (r: Vec<String>)
        ensures
            r@.len() == self.entries().len(),
            forall|i: int| 0 <= i < r@.len() ==> #[trigger] r@[i]@ == self.entries()[i].uri@,
    {
        let mut out: Vec<String> = Vec::new();
        let mut i: usize = 0;
        while i < self.docs.len()
            invariant
                i <= self.docs@.len(),
                out@.len() == i,
                forall|k: int| 0 <= k < i ==> #[trigger] out@[k]@ == self.docs@[k].uri@,
            decreases self.docs@.len() - i,
        {
            out.push(self.docs[i].uri.clone());
            i += 1;
        }
        out
    }
}

} // verus!

verus! {

/// Reading a URI back after storing text for it yields a document of exactly
/// that text.
pub proof fn law_get_after_upsert(before: Seq<VaultEntry>, after: Seq<VaultEntry>, uri: Seq<char>, text: Seq<char>)
    requires
        unique_uris(before),
        unique_uris(after),
        upserted(before, after, uri, text),
    ensures
        doc_for(after, uri) matches Some(d) && d.chars_view() == text,
{
    match find_entry(before, uri) {
        Some(i) => {
            lemma_find_entry(after, uri, i);
        },
        None => {
            lemma_find_entry(after, uri, before.len() as int);
        },
    }
}

/// Storing text for one URI leaves every other URI's document unchanged.
pub proof fn law_upsert_keeps_others(
    before: Seq<VaultEntry>,
    after: Seq<VaultEntry>,
    uri: Seq<char>,
    text: Seq<char>,
    other: Seq<char>,
)
    requires
        unique_uris(before),
        unique_uris(after),
        upserted(before, after, uri, text),
        other != uri,
    ensures
        doc_for(after, other) == doc_for(before, other),
{
    match find_entry(before, other) {
        Some(j) => {
            assert(before[j].uri@ == other);
            match find_entry(before, uri) {
                Some(i) => {
                    assert(j != i);
                    assert(after[j] == before[j]);
                },
                None => {
                    assert(after[j] == before[j]);
                },
            }
            lemma_find_entry(after, other, j);
        },
        None => {
            if exists|k: int| 0 <= k < after.len() && #[trigger] after[k].uri@ == other {
                let k = choose|k: int| 0 <= k < after.len() && #[trigger] after[k].uri@ == other;
                match find_entry(before, uri) {
                    Some(i) => {
                        if k != i {
                            assert(after[k] == before[k]);
                        }
                    },
                    None => {
                        if k < before.len() {
                            assert(after[k] == before[k]);
                        }
                    },
                }
                assert(false);
            }
        },
    }
}

/// Reading a URI back after a content change to it yields a document of
/// exactly the changed text.
pub proof fn law_get_after_change(
    before: Seq<VaultEntry>,
    after: Seq<VaultEntry>,
    uri: Seq<char>,
    start: Option<Position>,
    end: Option<Position>,
    text: Seq<char>,
)
    requires
        unique_uris(before),
        unique_uris(after),
        changed(before, after, uri, start, end, text),
    ensures
        doc_for(before, uri) matches Some(d0) && doc_for(after, uri) matches Some(d1) && d1.chars_view()
            == change_spec(d0.chars_view(), start, end, text),
{
    let i = find_entry(before, uri)->0;
    lemma_find_entry(after, uri, i);
}

/// After removing a URI, no document is stored for it.
pub proof fn law_get_after_remove(before: Seq<VaultEntry>, after: Seq<VaultEntry>, uri: Seq<char>)
    requires
        unique_uris(before),
        removed(before, after, uri),
    ensures
        doc_for(after, uri) is None,
{
    match find_entry(before, uri) {
        Some(i) => {
            if exists|k: int| 0 <= k < after.len() && #[trigger] after[k].uri@ == uri {
                let k = choose|k: int| 0 <= k < after.len() && #[trigger] after[k].uri@ == uri;
                let ok = if k < i { k } else { k + 1 };
                assert(after[k] == before[ok]);
                assert(false);
            }
        },
        None => {},
    }
}

} // verus!

verus! {

proof fn lemma_defs_in_cover(uri: Seq<char>, cs: Seq<char>, attrs: Seq<AttrView>, k: int)
    requires
        0 <= k < attrs.len(),
        is_fragment_attr_spec(attrs[k].name),
        fragment_name_spec(attrs[k].value).len() > 0,
    ensures
        defs_in(uri, cs, attrs).contains(
            FragmentDefView {
                name: fragment_name_spec(attrs[k].value),
                uri,
                range: range_at(cs, attrs[k].value_range.start as int, attrs[k].value_range.end as int),
            },
        ),
    decreases attrs.len(),
{
    let a = attrs[k];
    let x = FragmentDefView {
        name: fragment_name_spec(a.value),
        uri,
        range: range_at(cs, a.value_range.start as int, a.value_range.end as int),
    };
    let prev = defs_in(uri, cs, attrs.drop_last());
    if k == attrs.len() - 1 {
        let r = prev.push(x);
        assert(r[r.len() - 1] == x);
    } else {
        assert(attrs.drop_last()[k] == attrs[k]);
        lemma_defs_in_cover(uri, cs, attrs.drop_last(), k);
        let j = choose|j: int| 0 <= j < prev.len() && prev[j] == x;
        let l = attrs.last();
        let n = fragment_name_spec(l.value);
        if is_fragment_attr_spec(l.name) && n.len() > 0 {
            let r = prev.push(
                FragmentDefView {
                    name: n,
                    uri,
                    range: range_at(cs, l.value_range.start as int, l.value_range.end as int),
                },
            );
            assert(r[j] == x);
        }
    }
}

proof fn lemma_all_defs_cover(entries: Seq<VaultEntry>, i: int, x: FragmentDefView)
    requires
        0 <= i < entries.len(),
        defs_in(
            entries[i].uri@,
            entries[i].doc.chars_view(),
            attributes_spec(entries[i].doc.chars_view(), entries[i].doc.nodes_view()),
        ).contains(x),
    ensures
        all_defs_spec(entries).contains(x),
    decreases entries.len(),
{
    let e = entries.last();
    let prev = all_defs_spec(entries.drop_last());
    let here = defs_in(e.uri@, e.doc.chars_view(), attributes_spec(e.doc.chars_view(), e.doc.nodes_view()));
    if i == entries.len() - 1 {
        let j = choose|j: int| 0 <= j < here.len() && here[j] == x;
        assert((prev + here)[prev.len() + j] == x);
    } else {
        assert(entries.drop_last()[i] == entries[i]);
        lemma_all_defs_cover(entries.drop_last(), i, x);
        let j = choose|j: int| 0 <= j < prev.len() && prev[j] == x;
        assert((prev + here)[j] == x);
    }
}

proof fn lemma_defs_named_cover(defs: Seq<FragmentDefView>, x: FragmentDefView)
    requires
        defs.contains(x),
    ensures
        defs_named(defs, x.name).contains((x.uri, x.range)),
    decreases defs.len(),
{
    let prev = defs_named(defs.drop_last(), x.name);
    if defs.last() == x {
        let r = prev.push((x.uri, x.range));
        assert(r[r.len() - 1] == (x.uri, x.range));
    } else {
        let j = choose|j: int| 0 <= j < defs.len() && defs[j] == x;
        assert(j < defs.len() - 1);
        assert(defs.drop_last()[j] == x);
        lemma_defs_named_cover(defs.drop_last(), x);
        let q = choose|q: int| 0 <= q < prev.len() && prev[q] == (x.uri, x.range);
        if defs.last().name == x.name {
            let r = prev.push((defs.last().uri, defs.last().range));
            assert(r[q] == (x.uri, x.range));
        }
    }
}

/// The definition index covers the whole workspace: every `th:fragment`
/// attribute, in any stored document, is found by its name.
pub proof fn law_definitions_reach_every_fragment(entries: Seq<VaultEntry>, i: int, k: int)
    requires
        0 <= i < entries.len(),
        0 <= k < attributes_spec(entries[i].doc.chars_view(), entries[i].doc.nodes_view()).len(),
        is_fragment_attr_spec(attributes_spec(entries[i].doc.chars_view(), entries[i].doc.nodes_view())[k].name),
        fragment_name_spec(attributes_spec(entries[i].doc.chars_view(), entries[i].doc.nodes_view())[k].value).len()
            > 0,
    ensures
        defs_named(
            all_defs_spec(entries),
            fragment_name_spec(attributes_spec(entries[i].doc.chars_view(), entries[i].doc.nodes_view())[k].value),
        ).contains(
            (
                entries[i].uri@,
                range_at(
                    entries[i].doc.chars_view(),
                    attributes_spec(entries[i].doc.chars_view(), entries[i].doc.nodes_view())[k].value_range.start as int,
                    attributes_spec(entries[i].doc.chars_view(), entries[i].doc.nodes_view())[k].value_range.end as int,
                ),
            ),
        ),
{
    let e = entries[i];
    let cs = e.doc.chars_view();
    let attrs = attributes_spec(cs, e.doc.nodes_view());
    let a = attrs[k];
    lemma_defs_in_cover(e.uri@, cs, attrs, k);
    let x = FragmentDefView {
        name: fragment_name_spec(a.value),
        uri: e.uri@,
        range: range_at(cs, a.value_range.start as int, a.value_range.end as int),
    };
    lemma_all_defs_cover(entries, i, x);
    lemma_defs_named_cover(all_defs_spec(entries), x);
}


/// Every whitespace character of `cs` is ASCII whitespace: none is a
/// non-ASCII space and none is a vertical tab.
pub open spec fn ascii_spacing(cs: Seq<char>) -> bool {
    forall|i: int|
        0 <= i < cs.len() && is_unicode_ws(#[trigger] cs[i]) ==> (cs[i] as u32) < 0x80 && (cs[i]
            as u32) != 0x0b
}

proof fn lemma_high_bytes(y: u8)
    ensures
        (0x80u8 | y) >= 0x80,
        (0xC0u8 | y) >= 0x80,
        (0xE0u8 | y) >= 0x80,
        (0xF0u8 | y) >= 0x80,
{
    assert((0x80u8 | y) >= 0x80) by (bit_vector);
    assert((0xC0u8 | y) >= 0x80) by (bit_vector);
    assert((0xE0u8 | y) >= 0x80) by (bit_vector);
    assert((0xF0u8 | y) >= 0x80) by (bit_vector);
}

/// The bytes of one character: the character itself when it is ASCII, all
/// at least `0x80` otherwise.
proof fn lemma_scalar_bytes(c: char)
    ensures
        encode_scalar(c as u32).len() == crate::text::utf8_width(c),
        (c as u32) < 0x80 ==> encode_scalar(c as u32).len() == 1 && encode_scalar(c as u32)[0] as u32
            == c as u32,
        (c as u32) >= 0x80 ==> forall|t: int|
            0 <= t < encode_scalar(c as u32).len() ==> #[trigger] encode_scalar(c as u32)[t] >= 0x80,
{
    crate::text::lemma_width_matches_encoding(c);
    let v = c as u32;
    if v < 0x80 {
        assert(((v & 0x7F) as u8) as u32 == v) by (bit_vector)
            requires
                v < 0x80,
        ;
    } else {
        lemma_high_bytes((v & 0x3F) as u8);
        lemma_high_bytes(((v >> 6) & 0x3F) as u8);
        lemma_high_bytes(((v >> 12) & 0x3F) as u8);
        lemma_high_bytes(((v >> 6) & 0x1F) as u8);
        lemma_high_bytes(((v >> 12) & 0x0F) as u8);
        lemma_high_bytes(((v >> 18) & 0x7) as u8);
    }
}

/// The bytes of character `k` sit at its prefix offset in the encoding.
proof fn lemma_char_bytes(cs: Seq<char>, k: int)
    requires
        0 <= k < cs.len(),
    ensures
        forall|t: int|
            0 <= t < encode_scalar(cs[k] as u32).len() ==> #[trigger] encode_utf8(cs)[prefix_bytes(cs, k) + t]
                == encode_scalar(cs[k] as u32)[t],
{
    assert(cs =~= cs.take(k).push(cs[k]) + cs.skip(k + 1));
    lemma_encode_concat(cs.take(k).push(cs[k]), cs.skip(k + 1));
    crate::text::lemma_encode_push(cs.take(k), cs[k]);
}

/// The encoding of a stretch of characters is the stretch of the encoding
/// between their prefix offsets.
proof fn lemma_stretch_bytes(cs: Seq<char>, a: int, b: int)
    requires
        0 <= a <= b <= cs.len(),
    ensures
        encode_utf8(cs).subrange(prefix_bytes(cs, a) as int, prefix_bytes(cs, b) as int) == encode_utf8(
            cs.subrange(a, b),
        ),
{
    assert(cs =~= cs.take(a) + cs.subrange(a, b) + cs.skip(b));
    lemma_encode_concat(cs.take(a) + cs.subrange(a, b), cs.skip(b));
    lemma_encode_concat(cs.take(a), cs.subrange(a, b));
    assert(cs.take(b) =~= cs.take(a) + cs.subrange(a, b));
}

/// What the byte scans see at the start of character `k`: its first byte
/// is ASCII whitespace exactly when the character is whitespace, and is `(`
/// exactly when the character is; a whitespace character is one byte long.
proof fn lemma_first_byte(cs: Seq<char>, k: int)
    requires
        ascii_spacing(cs),
        0 <= k < cs.len(),
    ensures
        is_ascii_ws(encode_utf8(cs)[prefix_bytes(cs, k) as int]) == is_unicode_ws(cs[k]),
        (encode_utf8(cs)[prefix_bytes(cs, k) as int] == 0x28u8) == (cs[k] == '('),
        is_unicode_ws(cs[k]) ==> prefix_bytes(cs, k + 1) == prefix_bytes(cs, k) + 1,
        cs[k] != '(' ==> forall|t: int|
            prefix_bytes(cs, k) <= t < prefix_bytes(cs, k + 1) ==> #[trigger] encode_utf8(cs)[t] != 0x28u8,
{
    let c = cs[k];
    lemma_scalar_bytes(c);
    lemma_char_bytes(cs, k);
    crate::text::lemma_prefix_bytes_step(cs, k);
    let p = prefix_bytes(cs, k) as int;
    let e = encode_scalar(c as u32);
    assert(e.len() >= 1);
    assert(encode_utf8(cs)[p + 0] == e[0]);
    let b0 = encode_utf8(cs)[p];
    if (c as u32) < 0x80 {
        assert(b0 as u32 == c as u32);
        assert(is_ascii_ws(b0) == is_unicode_ws(c));
    } else {
        assert(b0 >= 0x80);
        assert(!is_unicode_ws(c));
        assert(is_ascii_ws(b0) == is_unicode_ws(c));
    }
    if cs[k] != '(' {
        assert forall|t: int| p <= t < prefix_bytes(cs, k + 1) implies #[trigger] encode_utf8(cs)[t] != 0x28u8 by {
            assert(encode_utf8(cs)[p + (t - p)] == e[t - p]);
            if (c as u32) < 0x80 {
                assert(t == p);
                vstd::utf8::char_u32_cast(c, c as u32);
                assert((0x28u32 as char) == '(');
            } else {
                assert(e[t - p] >= 0x80);
            }
        }
    }
}

/// The last byte of character `k - 1` is ASCII whitespace exactly when the
/// character is whitespace.
proof fn lemma_last_byte(cs: Seq<char>, k: int)
    requires
        ascii_spacing(cs),
        0 < k <= cs.len(),
    ensures
        is_ascii_ws(encode_utf8(cs)[prefix_bytes(cs, k) - 1]) == is_unicode_ws(cs[k - 1]),
        is_unicode_ws(cs[k - 1]) ==> prefix_bytes(cs, k - 1) == prefix_bytes(cs, k) - 1,
{
    let c = cs[k - 1];
    lemma_scalar_bytes(c);
    lemma_char_bytes(cs, k - 1);
    crate::text::lemma_prefix_bytes_step(cs, k - 1);
    let p = prefix_bytes(cs, k - 1) as int;
    let e = encode_scalar(c as u32);
    let w = e.len() as int;
    assert(w >= 1);
    assert(encode_utf8(cs)[p + (w - 1)] == e[w - 1]);
    let b = encode_utf8(cs)[p + (w - 1)];
    if (c as u32) < 0x80 {
        assert(b as u32 == c as u32);
    } else {
        assert(b >= 0x80);
        assert(!is_unicode_ws(c));
    }
}

proof fn lemma_fwd_chars(cs: Seq<char>, lo: int, hi: int)
    requires
        ascii_spacing(cs),
        0 <= lo <= hi <= cs.len(),
    ensures
        skip_ws_fwd(encode_utf8(cs), prefix_bytes(cs, lo) as int, prefix_bytes(cs, hi) as int)
            == prefix_bytes(cs, lo + lead_ws(cs.subrange(lo, hi))),
    decreases hi - lo,
{
    crate::text::lemma_prefix_bytes_mono(cs, lo, hi);
    if lo < hi {
        lemma_first_byte(cs, lo);
        assert(cs.subrange(lo, hi).drop_first() =~= cs.subrange(lo + 1, hi));
        assert(cs.subrange(lo, hi)[0] == cs[lo]);
        lemma_fwd_chars(cs, lo + 1, hi);
    } else {
        assert(cs.subrange(lo, hi).len() == 0);
    }
}

proof fn lemma_back_chars(cs: Seq<char>, lo: int, hi: int)
    requires
        ascii_spacing(cs),
        0 <= lo <= hi <= cs.len(),
    ensures
        skip_ws_back(encode_utf8(cs), prefix_bytes(cs, lo) as int, prefix_bytes(cs, hi) as int)
            == prefix_bytes(cs, hi - trail_ws(cs.subrange(lo, hi))),
    decreases hi - lo,
{
    crate::text::lemma_prefix_bytes_mono(cs, lo, hi);
    if lo < hi {
        lemma_last_byte(cs, hi);
        crate::text::lemma_prefix_bytes_mono(cs, lo, hi - 1);
        assert(cs.subrange(lo, hi).drop_last() =~= cs.subrange(lo, hi - 1));
        assert(cs.subrange(lo, hi).last() == cs[hi - 1]);
        lemma_back_chars(cs, lo, hi - 1);
    } else {
        assert(cs.subrange(lo, hi).len() == 0);
    }
}

proof fn lemma_find_chars(cs: Seq<char>, lo: int, hi: int)
    requires
        ascii_spacing(cs),
        0 <= lo <= hi <= cs.len(),
    ensures
        find_byte(encode_utf8(cs), prefix_bytes(cs, lo) as int, prefix_bytes(cs, hi) as int, 0x28u8) == (
        match find_char_spec(cs.subrange(lo, hi), '(') {
            Some(i) => Some(prefix_bytes(cs, lo + i) as int),
            None => None,
        }),
    decreases hi - lo,
{
    crate::text::lemma_prefix_bytes_mono(cs, lo, hi);
    if lo < hi {
        lemma_first_byte(cs, lo);
        assert(cs.subrange(lo, hi).drop_first() =~= cs.subrange(lo + 1, hi));
        assert(cs.subrange(lo, hi)[0] == cs[lo]);
        crate::text::lemma_prefix_bytes_mono(cs, lo + 1, hi);
        crate::text::lemma_prefix_bytes_mono(cs, lo, lo + 1);
        crate::text::lemma_prefix_bytes_all(cs);
        crate::text::lemma_prefix_bytes_mono(cs, hi, cs.len() as int);
        if cs[lo] != '(' {
            crate::fragmentref::lemma_find_from(
                encode_utf8(cs),
                prefix_bytes(cs, lo) as int,
                prefix_bytes(cs, lo + 1) as int,
                prefix_bytes(cs, hi) as int,
                0x28u8,
            );
            lemma_find_chars(cs, lo + 1, hi);
        }
    } else {
        assert(cs.subrange(lo, hi).len() == 0);
    }
}

/// Trimming a stretch of characters keeps the characters of the trimmed
/// byte window.
proof fn lemma_trim_chars(cs: Seq<char>, lo: int, hi: int)
    requires
        ascii_spacing(cs),
        0 <= lo <= hi <= cs.len(),
    ensures
        ({
            let (bl, bh) = trim_window_spec(encode_utf8(cs), prefix_bytes(cs, lo) as int, prefix_bytes(cs, hi) as int);
            let l = lo + lead_ws(cs.subrange(lo, hi));
            let h = hi - trail_ws(cs.subrange(l, hi));
            &&& lo <= l <= h <= hi
            &&& bl == prefix_bytes(cs, l)
            &&& bh == prefix_bytes(cs, h)
            &&& trim_seq(cs.subrange(lo, hi)) == cs.subrange(l, h)
        }),
{
    lemma_fwd_chars(cs, lo, hi);
    lemma_lead_ws_bound(cs.subrange(lo, hi));
    let l = lo + lead_ws(cs.subrange(lo, hi));
    lemma_back_chars(cs, l, hi);
    lemma_trail_ws_bound(cs.subrange(l, hi));
    assert(trim_start_seq(cs.subrange(lo, hi)) =~= cs.subrange(l, hi));
    let h = hi - trail_ws(cs.subrange(l, hi));
    assert(trim_seq(cs.subrange(lo, hi)) =~= cs.subrange(l, h));
}

/// When no whitespace is non-ASCII, the name `parse_fragment_name` extracts
/// is the one `definition_name` finds: the same bytes, and empty when it
/// finds none.
pub proof fn law_fragment_name_agrees(cs: Seq<char>)
    requires
        ascii_spacing(cs),
    ensures
        encode_utf8(fragment_name_spec(cs)) == (match definition_token(encode_utf8(cs)) {
            Some(t) => t,
            None => Seq::<u8>::empty(),
        }),
{
    let b = encode_utf8(cs);
    let n = cs.len() as int;
    assert(cs.subrange(0, n) =~= cs);
    crate::text::lemma_prefix_bytes_zero(cs);
    crate::text::lemma_prefix_bytes_all(cs);
    lemma_trim_chars(cs, 0, n);
    let l = lead_ws(cs.subrange(0, n)) as int;
    let h = n - trail_ws(cs.subrange(l, n));
    let t = trim_seq(cs);
    assert(t == cs.subrange(l, h));
    lemma_find_chars(cs, l, h);
    let e = match find_char_spec(t, '(') {
        Some(i) => l + i,
        None => h,
    };
    match find_char_spec(t, '(') {
        Some(i) => {
            crate::text::lemma_find_char_range(t, '(');
            assert(t.take(i) =~= cs.subrange(l, e));
        },
        None => {
            assert(t =~= cs.subrange(l, e));
        },
    }
    lemma_trim_chars(cs, l, e);
    let a = l + lead_ws(cs.subrange(l, e));
    let z = e - trail_ws(cs.subrange(a, e));
    assert(fragment_name_spec(cs) == cs.subrange(a, z));
    lemma_stretch_bytes(cs, a, z);
    if a < z {
        crate::text::lemma_prefix_bytes_mono(cs, a, z);
    } else {
        assert(cs.subrange(a, z) =~= Seq::<char>::empty());
        assert(encode_utf8(Seq::<char>::empty()) =~= Seq::<u8>::empty());
    }
}

} // verus!
