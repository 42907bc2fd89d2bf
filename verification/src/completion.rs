//! Completion feature: Thymeleaf attribute-name and expression-syntax
//! completions, driven by the cursor context reported by a document.

use vstd::prelude::*;
use vstd::string::*;
use crate::document::{
    context_spec, deepest_at, offset_char_index, ContextView, CursorContext, Position,
};
use crate::text::{
    chars_eq, chars_of, has_prefix, lower_seq, prefix_bytes, starts_with_chars, trim_seq,
    trimmed_lower,
};
use crate::thymeleaf::{
    all_attrs, catalog, entry, expression_catalog, expression_syntaxes, lookup, lookup_spec,
    syntax_entry, ThymeleafAttr,
};
use crate::vault::{doc_for, Vault};

verus! {

/// The kind of a completion item.
#[derive(Debug, Clone, Copy, PartialEq, Eq, Structural)]
pub enum CompletionKind {
    Property,
    Snippet,
    Function,
}

/// A completion item; `documentation` is markdown.
#[derive(Debug)]
pub struct CompletionItem {
    pub label: String,
    pub kind: Option<CompletionKind>,
    pub detail: Option<String>,
    pub documentation: Option<String>,
    pub insert_text: Option<String>,
}

pub struct CompletionItemView {
    pub label: Seq<char>,
    pub kind: Option<CompletionKind>,
    pub detail: Option<Seq<char>>,
    pub documentation: Option<Seq<char>>,
    pub insert_text: Option<Seq<char>>,
}

pub open spec fn opt_view(s: Option<String>) -> Option<Seq<char>> {
    match s {
        Some(v) => Some(v@),
        None => None,
    }
}

impl View for CompletionItem {
    type V = CompletionItemView;

    open spec fn view(&self) -> CompletionItemView {
        CompletionItemView {
            label: self.label@,
            kind: self.kind,
            detail: opt_view(self.detail),
            documentation: opt_view(self.documentation),
            insert_text: opt_view(self.insert_text),
        }
    }
}

pub open spec fn item_views(s: Seq<CompletionItem>) -> Seq<CompletionItemView> {
    s.map_values(|c: CompletionItem| c@)
}

/// The canonical `th:xxx`-style prefix the partial attribute text filters by;
/// empty when every attribute is offered.
pub open spec fn normalize_partial_spec(partial: Seq<char>) -> Seq<char> {
    let lower = lower_seq(trim_seq(partial));
    if has_prefix(lower, "data-th-"@) {
        "th:"@ + lower.skip(8)
    } else if has_prefix(lower, "data-th"@) {
        Seq::empty()
    } else if has_prefix(lower, "th:"@) {
        lower
    } else if lower == "th"@ || lower == "t"@ || lower.len() == 0 {
        Seq::empty()
    } else if has_prefix("th:"@, lower) {
        Seq::empty()
    } else {
        lower
    }
}

/// `"th:"` followed by `lower[8..]`.
fn th_then_rest(lower: &Vec<char>) -> (r: Vec<char>)
    requires
        lower@.len() >= 8,
    ensures
        r@ == "th:"@ + lower@.skip(8),
{
    let mut out = chars_of("th:");
    let mut i: usize = 8;
    while i < lower.len()
        invariant
            8 <= i <= lower@.len(),
            out@ == "th:"@ + lower@.subrange(8, i as int),
        decreases lower@.len() - i,
    {
        out.push(lower[i]);
        proof {
            assert(("th:"@ + lower@.subrange(8, i as int)).push(lower@[i as int]) =~= "th:"@
                + lower@.subrange(8, i + 1));
        }
        i += 1;
    }
    proof {
        assert(lower@.subrange(8, lower@.len() as int) =~= lower@.skip(8));
    }
    out
}

/// Normalizes the partial attribute text into a canonical prefix suitable
/// for `starts_with` filtering against the catalog.
fn normalize_partial(partial: &str) -> (r: Vec<char>)
    ensures
        r@ == normalize_partial_spec(partial@),
{
    let lower = trimmed_lower(partial);
    if starts_with_chars(&lower, &chars_of("data-th-")) {
        proof {
            reveal_strlit("data-th-");
        }
        return th_then_rest(&lower);
    }
    if starts_with_chars(&lower, &chars_of("data-th")) {
        return Vec::new();
    }
    if starts_with_chars(&lower, &chars_of("th:")) {
        return lower;
    }
    if chars_eq(&lower, &chars_of("th")) || chars_eq(&lower, &chars_of("t")) || lower.len() == 0 {
        return Vec::new();
    }
    if starts_with_chars(&chars_of("th:"), &lower) {
        return Vec::new();
    }
    lower
}

/// The item offered for catalog entry `e`.
pub open spec fn attr_item(e: (Seq<char>, Seq<char>, Seq<char>)) -> CompletionItemView {
    CompletionItemView {
        label: e.0,
        kind: Some(CompletionKind::Property),
        detail: Some(e.1),
        documentation: Some(e.2),
        insert_text: Some(e.0),
    }
}

/// The items for the first `n` catalog entries whose names start with
/// `filter` (all of them when `filter` is empty).
pub open spec fn attribute_items(filter: Seq<char>, n: int) -> Seq<CompletionItemView>
    decreases n,
{
    if n <= 0 {
        Seq::empty()
    } else {
        let prev = attribute_items(filter, n - 1);
        let e = catalog()[n - 1];
        if filter.len() == 0 || has_prefix(e.0, filter) {
            prev.push(attr_item(e))
        } else {
            prev
        }
    }
}

/// Builds completion items for all Thymeleaf attributes whose canonical name
/// matches `partial`.
pub fn attribute_completions(partial: &str) -> (r: Vec<CompletionItem>)
    ensures
        item_views(r@) == attribute_items(normalize_partial_spec(partial@), catalog().len() as int),
{
    let filter = normalize_partial(partial);
    let attrs = all_attrs();
    let mut out: Vec<CompletionItem> = Vec::new();
    let mut i: usize = 0;
    while i < attrs.len()
        invariant
            i <= attrs@.len(),
            attrs@.map_values(|a: ThymeleafAttr| entry(a)) == catalog(),
            filter@ == normalize_partial_spec(partial@),
            item_views(out@) == attribute_items(filter@, i as int),
        decreases attrs@.len() - i,
    {
        let a = attrs[i];
        proof {
            assert(entry(attrs@[i as int]) == catalog()[i as int]);
        }
        if filter.len() == 0 || starts_with_chars(&chars_of(a.name), &filter) {
            let ghost before = out@;
            out.push(
                CompletionItem {
                    label: String::from_str(a.name),
                    kind: Some(CompletionKind::Property),
                    detail: Some(String::from_str(a.summary)),
                    documentation: Some(String::from_str(a.doc)),
                    insert_text: Some(String::from_str(a.name)),
                },
            );
            proof {
                assert(item_views(out@) =~= item_views(before).push(out@.last()@));
            }
        }
        i += 1;
    }
    proof {
        assert(attrs@.len() == catalog().len());
    }
    out
}

/// `s` with every trailing occurrence of `p` removed (`str::trim_end_matches`).
pub open spec fn trim_end_matches_spec(s: Seq<char>, p: Seq<char>) -> Seq<char>
    decreases s.len(),
{
    if p.len() > 0 && p.len() <= s.len() && s.skip(s.len() - p.len()) == p {
        trim_end_matches_spec(s.take(s.len() - p.len()), p)
    } else {
        s
    }
}

/// The item offered for expression-syntax entry `e`: a snippet inserting the
/// empty wrapper for a `X{...}` expression, or the utility-object token.
pub open spec fn syntax_item(e: (Seq<char>, Seq<char>)) -> CompletionItemView {
    let pat = "{...}"@;
    let is_expression = pat.len() <= e.0.len() && e.0.skip(e.0.len() - pat.len()) == pat;
    CompletionItemView {
        label: e.0,
        kind: Some(
            if is_expression {
                CompletionKind::Snippet
            } else {
                CompletionKind::Function
            },
        ),
        detail: Some(
            if is_expression {
                "Thymeleaf expression"@
            } else {
                "Thymeleaf utility object"@
            },
        ),
        documentation: Some(e.1),
        insert_text: Some(
            if is_expression {
                trim_end_matches_spec(e.0, pat) + "{}"@
            } else {
                e.0
            },
        ),
    }
}

/// Whether `s` ends with `p`.
fn ends_with_chars(s: &Vec<char>, lo: usize, hi: usize, p: &Vec<char>) -> (r: bool)
    requires
        lo <= hi <= s@.len(),
    ensures
        r == (p@.len() <= hi - lo && s@.subrange(lo as int, hi as int).skip(hi - lo - p@.len()) == p@),
{
    if p.len() > hi - lo {
        return false;
    }
    let base = hi - p.len();
    let mut i: usize = 0;
    while i < p.len()
        invariant
            p@.len() <= hi - lo,
            base == hi - p@.len(),
            lo <= base,
            hi <= s@.len(),
            i <= p@.len(),
            forall|k: int| 0 <= k < i ==> s@[base + k] == p@[k],
        decreases p@.len() - i,
    {
        if s[base + i] != p[i] {
            proof {
                assert(s@.subrange(lo as int, hi as int).skip(hi - lo - p@.len())[i as int] != p@[i as int]);
            }
            return false;
        }
        i += 1;
    }
    proof {
        assert(s@.subrange(lo as int, hi as int).skip(hi - lo - p@.len()) =~= p@);
    }
    true
}

/// `str::trim_end_matches` on a character vector.
fn trim_end_matches(s: &Vec<char>, p: &Vec<char>) -> (r: Vec<char>)
    ensures
        r@ == trim_end_matches_spec(s@, p@),
{
    let mut hi = s.len();
    proof {
        assert(s@.subrange(0, hi as int) =~= s@);
    }
    while p.len() > 0 && ends_with_chars(s, 0, hi, p)
        invariant
            hi <= s@.len(),
            trim_end_matches_spec(s@, p@) == trim_end_matches_spec(s@.subrange(0, hi as int), p@),
        decreases hi,
    {
        proof {
            assert(s@.subrange(0, hi as int).take(hi - p@.len()) =~= s@.subrange(0, hi - p@.len()));
        }
        hi = hi - p.len();
    }
    let mut out: Vec<char> = Vec::new();
    let mut i: usize = 0;
    while i < hi
        invariant
            hi <= s@.len(),
            i <= hi,
            out@ == s@.subrange(0, i as int),
        decreases hi - i,
    {
        out.push(s[i]);
        proof {
            assert(s@.subrange(0, i + 1) =~= s@.subrange(0, i as int).push(s@[i as int]));
        }
        i += 1;
    }
    out
}

/// A string holding the characters of `cs`.
fn string_from(cs: &Vec<char>) -> (r: String)
    ensures
        r@ == cs@,
{
    let r = crate::text::string_of(cs, 0, cs.len());
    proof {
        assert(cs@.subrange(0, cs@.len() as int) =~= cs@);
    }
    r
}

/// Builds completion items for the Thymeleaf expression syntaxes and utility
/// objects.
pub fn expression_completions() -> (r: Vec<CompletionItem>)
    ensures
        item_views(r@) == expression_catalog().map_values(|e: (Seq<char>, Seq<char>)| syntax_item(e)),
{
    let syntaxes = expression_syntaxes();
    let pat = chars_of("{...}");
    let mut out: Vec<CompletionItem> = Vec::new();
    let mut i: usize = 0;
    while i < syntaxes.len()
        invariant
            i <= syntaxes@.len(),
            syntaxes@.map_values(|e: (&'static str, &'static str)| syntax_entry(e)) == expression_catalog(),
            pat@ == "{...}"@,
            item_views(out@) == expression_catalog().take(i as int).map_values(
                |e: (Seq<char>, Seq<char>)| syntax_item(e),
            ),
        decreases syntaxes@.len() - i,
    {
        let (token, markdown) = syntaxes[i];
        proof {
            assert(syntax_entry(syntaxes@[i as int]) == expression_catalog()[i as int]);
        }
        let tc = chars_of(token);
        let is_expression = ends_with_chars(&tc, 0, tc.len(), &pat);
        proof {
            assert(tc@.subrange(0, tc@.len() as int) =~= tc@);
        }
        let insert_text = if is_expression {
            // Insert the wrapper with the cursor placed inside the braces.
            let mut stripped = string_from(&trim_end_matches(&tc, &pat));
            stripped.append("{}");
            stripped
        } else {
            // Utility object token, e.g. `#strings`.
            String::from_str(token)
        };
        let ghost before = out@;
        out.push(
            CompletionItem {
                label: String::from_str(token),
                kind: Some(
                    if is_expression {
                        CompletionKind::Snippet
                    } else {
                        CompletionKind::Function
                    },
                ),
                detail: Some(
                    if is_expression {
                        String::from_str("Thymeleaf expression")
                    } else {
                        String::from_str("Thymeleaf utility object")
                    },
                ),
                documentation: Some(String::from_str(markdown)),
                insert_text: Some(insert_text),
            },
        );
        proof {
            assert(item_views(out@) =~= item_views(before).push(out@.last()@));
            assert(expression_catalog().take(i + 1) =~= expression_catalog().take(i as int).push(
                expression_catalog()[i as int],
            ));
        }
        i += 1;
    }
    proof {
        assert(expression_catalog().take(syntaxes@.len() as int) =~= expression_catalog());
    }
    out
}

/// The items offered for a cursor context: attribute names at an
/// attribute-name site, expression helpers inside the value of a known
/// Thymeleaf attribute, nothing elsewhere.
pub open spec fn completions_spec(ctx: ContextView) -> Seq<CompletionItemView> {
    match ctx {
        ContextView::AttrName { partial, .. } => attribute_items(
            normalize_partial_spec(partial),
            catalog().len() as int,
        ),
        ContextView::AttrValue { attr, .. } => if lookup_spec(attr) is Some {
            expression_catalog().map_values(|e: (Seq<char>, Seq<char>)| syntax_item(e))
        } else {
            Seq::empty()
        },
        _ => Seq::empty(),
    }
}

/// Produces completion items for a cursor context.
pub fn completion_for_context(ctx: &CursorContext) -> (r: Vec<CompletionItem>)
    ensures
        item_views(r@) == completions_spec(ctx@),
{
    match ctx {
        CursorContext::AttrName { partial, .. } => attribute_completions(partial.as_str()),
        CursorContext::AttrValue { attr, .. } => {
            // Only offer expression helpers inside recognized Thymeleaf
            // attributes.
            if lookup(attr.as_str()).is_some() {
                expression_completions()
            } else {
                Vec::new()
            }
        },
        _ => Vec::new(),
    }
}

/// Produces completion items for the cursor at `position` in the document
/// `uri`: the items of [`completion_for_context`] for the cursor context
/// there, or none when the document is unknown.
pub fn completion(vault: &Vault, uri: &str, position: Position) -> (r: Vec<CompletionItem>)
    ensures
        doc_for(vault.entries(), uri@) is None ==> r@.len() == 0,
        doc_for(vault.entries(), uri@) matches Some(d) ==> {
            let b = prefix_bytes(
                d.chars_view(),
                offset_char_index(d.chars_view(), position.line as nat, position.character as nat),
            ) as int;
            item_views(r@) == completions_spec(
                context_spec(d.chars_view(), d.nodes_view(), deepest_at(d.nodes_view(), b), b),
            )
        },
{
    let doc = match vault.get(uri) {
        Some(d) => d,
        None => return Vec::new(),
    };
    let offset = doc.offset_at(position);
    let ctx = doc.context_at(offset);
    let r = completion_for_context(&ctx);
    proof {
        assert(doc_for(vault.entries(), uri@) == Some(*doc));
    }
    r
}

} // verus!

verus! {

proof fn lemma_attribute_items(filter: Seq<char>, n: int)
    requires
        0 <= n <= catalog().len(),
    ensures
        forall|i: int|
            0 <= i < attribute_items(filter, n).len() ==> has_prefix(#[trigger] attribute_items(filter, n)[i].label, "th:"@)
                && (filter.len() > 0 ==> has_prefix(attribute_items(filter, n)[i].label, filter)),
    decreases n,
{
    if n > 0 {
        lemma_attribute_items(filter, n - 1);
        crate::thymeleaf::law_catalog_canonical();
        let prev = attribute_items(filter, n - 1);
        let e = catalog()[n - 1];
        assert(has_prefix(e.0, "th:"@));
        if filter.len() == 0 || has_prefix(e.0, filter) {
            let r = prev.push(attr_item(e));
            assert forall|i: int| 0 <= i < r.len() implies has_prefix(#[trigger] r[i].label, "th:"@)
                && (filter.len() > 0 ==> has_prefix(r[i].label, filter)) by {
                if i < prev.len() {
                    assert(r[i] == prev[i]);
                }
            }
        }
    }
}

/// Attribute-name completions are Thymeleaf attributes, filtered as typed:
/// every label is a canonical `th:` name, and starts with the typed prefix
/// whenever there is one.
pub proof fn law_attribute_completions_filtered(partial: Seq<char>)
    ensures
        forall|i: int|
            0 <= i < attribute_items(normalize_partial_spec(partial), catalog().len() as int).len()
                ==> has_prefix(
                #[trigger] attribute_items(normalize_partial_spec(partial), catalog().len() as int)[i].label,
                "th:"@,
            ) && (normalize_partial_spec(partial).len() > 0 ==> has_prefix(
                attribute_items(normalize_partial_spec(partial), catalog().len() as int)[i].label,
                normalize_partial_spec(partial),
            )),
{
    lemma_attribute_items(normalize_partial_spec(partial), catalog().len() as int);
}

proof fn lemma_attribute_items_member(filter: Seq<char>, n: int, i: int)
    requires
        0 <= i < n <= catalog().len(),
        filter.len() == 0 || has_prefix(catalog()[i].0, filter),
    ensures
        attribute_items(filter, n).contains(attr_item(catalog()[i])),
    decreases n,
{
    if i < n - 1 {
        lemma_attribute_items_member(filter, n - 1, i);
        let prev = attribute_items(filter, n - 1);
        let k = choose|k: int| 0 <= k < prev.len() && prev[k] == attr_item(catalog()[i]);
        if filter.len() == 0 || has_prefix(catalog()[n - 1].0, filter) {
            assert(prev.push(attr_item(catalog()[n - 1]))[k] == prev[k]);
        }
    } else {
        let prev = attribute_items(filter, n - 1);
        assert(prev.push(attr_item(catalog()[i]))[prev.len() as int] == attr_item(catalog()[i]));
    }
}

/// Typing the HTML5 `data-th-` spelling completes exactly as typing the
/// `th:` spelling does: `data-th-x` offers every catalog attribute whose name
/// starts with `th:` followed by the trimmed, lowercased `x`, and nothing
/// else than `th:x` offers.
pub proof fn law_data_th_partial_completes_as_th(x: Seq<char>)
    ensures
        attribute_items(normalize_partial_spec("data-th-"@ + x), catalog().len() as int)
            == attribute_items(normalize_partial_spec("th:"@ + x), catalog().len() as int),
        forall|i: int|
            0 <= i < catalog().len() && has_prefix(
                #[trigger] catalog()[i].0,
                "th:"@ + lower_seq(crate::text::trim_end_seq(x)),
            ) ==> attribute_items(normalize_partial_spec("data-th-"@ + x), catalog().len() as int).contains(
                attr_item(catalog()[i]),
            ),
{
    reveal_strlit("data-th-");
    reveal_strlit("th:");
    reveal_strlit("data-th");
    let d = "data-th-"@;
    let t = "th:"@;
    crate::thymeleaf::lemma_trim_after_word(d, x);
    crate::thymeleaf::lemma_trim_after_word(t, x);
    let e = crate::text::trim_end_seq(x);
    let ld = lower_seq(d + e);
    let lt = lower_seq(t + e);
    assert(ld =~= d + lower_seq(e));
    assert(lt =~= t + lower_seq(e));
    assert(ld.take(8) =~= d);
    assert(lt.take(3) =~= t);
    assert(ld.skip(8) =~= lower_seq(e));
    let f = t + lower_seq(e);
    assert(normalize_partial_spec(d + x) == f);
    assert(normalize_partial_spec(t + x) == f);
    assert forall|i: int|
        0 <= i < catalog().len() && has_prefix(#[trigger] catalog()[i].0, f) implies attribute_items(
        f,
        catalog().len() as int,
    ).contains(attr_item(catalog()[i])) by {
        lemma_attribute_items_member(f, catalog().len() as int, i);
    }
}

} // verus!
