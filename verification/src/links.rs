//! Document links for Thymeleaf templates.
//!
//! Two shapes are recognised:
//!   * Thymeleaf link expressions `@{ ... }` in *any* attribute value; the path
//!     inside the braces is linked, without its `(params)` suffix.
//!   * Plain `href="..."` / `src="..."` attributes holding an `http(s)` URL.
//!
//! Absolute web URLs get a parsed target; other paths cannot be resolved here,
//! so they carry no target but a descriptive tooltip.

use vstd::prelude::*;
use vstd::string::*;
use crate::document::{doc_attrs, range_at, views, AttrOccurrence, AttrView, Document, LspRange};
use crate::text::{trim_chars, ws_back, ws_fwd};
use crate::text::{chars_eq, chars_of, has_prefix, prefix_bytes, starts_with_chars, string_of, unicode_ws};

verus! {

/// A link: its range, where it leads (a serialized URL), and a tooltip.
#[derive(Debug)]
pub struct DocumentLink {
    pub range: LspRange,
    pub target: Option<String>,
    pub tooltip: Option<String>,
}

pub struct DocumentLinkView {
    pub range: LspRange,
    pub target: Option<Seq<char>>,
    pub tooltip: Option<Seq<char>>,
}

pub open spec fn opt_chars(s: Option<String>) -> Option<Seq<char>> {
    match s {
        Some(v) => Some(v@),
        None => None,
    }
}

impl View for DocumentLink {
    type V = DocumentLinkView;

    open spec fn view(&self) -> DocumentLinkView {
        DocumentLinkView { range: self.range, target: opt_chars(self.target), tooltip: opt_chars(self.tooltip) }
    }
}

pub open spec fn link_views(s: Seq<DocumentLink>) -> Seq<DocumentLinkView> {
    s.map_values(|l: DocumentLink| l@)
}

/// The serialization of the URL that `Url::parse` makes of `s`, or `None`
/// when `s` does not parse.
pub uninterp spec fn parsed_url(s: Seq<char>) -> Option<Seq<char>>;

/// `Url::parse` (re-exported by `tower_lsp::lsp_types` from the `url`
/// crate): the parsed URL's serialization (`Url::as_str`), or `None` on a
/// parse error. Its result is a function of the text alone.
#[verifier::external_body]
fn parse_url(s: &str) -> (r: Option<String>)
    ensures
        r matches Some(u) ==> parsed_url(s@) == Some(u@),
        r is None ==> parsed_url(s@) is None,
{
    match tower_lsp::lsp_types::Url::parse(s) {
        Ok(u) => Some(u.as_str().to_string()),
        Err(_) => None,
    }
}

// === Link construction =====================================================

/// Whether a path is an absolute web URL.
pub open spec fn is_http(p: Seq<char>) -> bool {
    has_prefix(p, "http://"@) || has_prefix(p, "https://"@)
}

/// The link for `path` spanning `range`, given what parsing `path` as a URL
/// produced: web URLs link to their parsed form (no link when parsing
/// failed); other paths get no target but a tooltip.
pub open spec fn link_for(range: LspRange, path: Seq<char>, parsed: Option<Seq<char>>) -> Option<DocumentLinkView> {
    if is_http(path) {
        match parsed {
            Some(u) => Some(DocumentLinkView { range, target: Some(u), tooltip: None }),
            None => None,
        }
    } else {
        Some(DocumentLinkView { range, target: None, tooltip: Some("Thymeleaf link expression"@) })
    }
}

/// Whether `path` starts with `http://` or `https://`.
fn http_path(path: &str) -> (r: bool)
    ensures
        r == is_http(path@),
{
    let cs = chars_of(path);
    starts_with_chars(&cs, &chars_of("http://")) || starts_with_chars(&cs, &chars_of("https://"))
}

/// Builds the link for `path` spanning `range` from the outcome of parsing
/// `path` as a URL.
pub fn build_link(range: LspRange, path: &str, parsed: Option<String>) -> (r: Option<DocumentLink>)
    ensures
        r matches Some(l) ==> link_for(range, path@, opt_chars(parsed)) == Some(l@),
        r is None ==> link_for(range, path@, opt_chars(parsed)) is None,
{
    if http_path(path) {
        match parsed {
            Some(u) => Some(DocumentLink { range, target: Some(u), tooltip: None }),
            None => None,
        }
    } else {
        Some(
            DocumentLink {
                range,
                target: None,
                tooltip: Some(String::from_str("Thymeleaf link expression")),
            },
        )
    }
}

/// The link for `path` spanning the bytes `[start, end)` of the document.
fn make_link(doc: &Document, start: usize, end: usize, path: &str) -> (r: Option<DocumentLink>)
    ensures
        r matches Some(l) ==> link_for(range_at(doc.chars_view(), start as int, end as int), path@, parsed_url(path@))
            == Some(l@),
        r is None ==> link_for(range_at(doc.chars_view(), start as int, end as int), path@, parsed_url(path@)) is None,
{
    let range = doc.range_of(start, end);
    let parsed = if http_path(path) {
        parse_url(path)
    } else {
        None
    };
    build_link(range, path, parsed)
}

// === `@{ ... }` expressions ================================================

/// Index of the `}` closing a brace opened before `i`, with `depth` braces
/// open.
pub open spec fn close_from(v: Seq<char>, i: int, depth: nat) -> Option<int>
    decreases v.len() - i,
{
    if i < 0 || i >= v.len() {
        None
    } else if v[i] == '{' {
        close_from(v, i + 1, depth + 1)
    } else if v[i] == '}' {
        if depth <= 1 {
            Some(i)
        } else {
            close_from(v, i + 1, (depth - 1) as nat)
        }
    } else {
        close_from(v, i + 1, depth)
    }
}

pub proof fn lemma_close_from(v: Seq<char>, i: int, depth: nat)
    ensures
        close_from(v, i, depth) matches Some(c) ==> i <= c < v.len(),
    decreases v.len() - i,
{
    if 0 <= i < v.len() {
        if v[i] == '{' {
            lemma_close_from(v, i + 1, depth + 1);
        } else if v[i] == '}' {
            if depth > 1 {
                lemma_close_from(v, i + 1, (depth - 1) as nat);
            }
        } else {
            lemma_close_from(v, i + 1, depth);
        }
    }
}

/// Index of the `(` opening the parameter list within `[i, hi)`: the first
/// `(` outside any `{...}` path variable.
pub open spec fn paren_from(v: Seq<char>, i: int, hi: int, depth: nat) -> Option<int>
    decreases hi - i,
{
    if i >= hi {
        None
    } else if v[i] == '{' {
        paren_from(v, i + 1, hi, depth + 1)
    } else if v[i] == '}' {
        paren_from(v, i + 1, hi, if depth > 0 { (depth - 1) as nat } else { 0 })
    } else if v[i] == '(' && depth == 0 {
        Some(i)
    } else {
        paren_from(v, i + 1, hi, depth)
    }
}

pub proof fn lemma_paren_from(v: Seq<char>, i: int, hi: int, depth: nat)
    ensures
        paren_from(v, i, hi, depth) matches Some(p) ==> i <= p < hi,
    decreases hi - i,
{
    if i < hi {
        if v[i] == '{' {
            lemma_paren_from(v, i + 1, hi, depth + 1);
        } else if v[i] == '}' {
            lemma_paren_from(v, i + 1, hi, if depth > 0 { (depth - 1) as nat } else { 0 });
        } else if !(v[i] == '(' && depth == 0) {
            lemma_paren_from(v, i + 1, hi, depth);
        }
    }
}

/// The character spans of the paths of the `@{ ... }` expressions of `v` from
/// index `i` on: each path runs from just past `@{` to its parameter list (or
/// the closing `}`), trimmed; empty paths are skipped. Scanning stops at an
/// unclosed expression.
pub open spec fn link_spans(v: Seq<char>, i: int) -> Seq<(int, int)>
    decreases v.len() - i,
{
    if i < 0 || i + 2 > v.len() {
        Seq::empty()
    } else if v[i] == '@' && v[i + 1] == '{' {
        let open = i + 2;
        match close_from(v, open, 1) {
            Some(c) => {
                proof {
                    lemma_close_from(v, open, 1);
                }
                let pe = match paren_from(v, open, c, 0) {
                    Some(q) => q,
                    None => c,
                };
                let (s, e) = trim_chars(v, open, pe);
                let here = if s < e {
                    seq![(s, e)]
                } else {
                    Seq::<(int, int)>::empty()
                };
                here + link_spans(v, c + 1)
            },
            None => Seq::empty(),
        }
    } else {
        link_spans(v, i + 1)
    }
}

/// The link for the character span `[s, e)` of the value of `a`. A span whose
/// absolute end would not fit in a machine word yields none.
pub open spec fn span_link(cs: Seq<char>, a: AttrView, sp: (int, int)) -> Option<DocumentLinkView> {
    let v = a.value;
    let start = a.value_range.start + prefix_bytes(v, sp.0);
    let end = a.value_range.start + prefix_bytes(v, sp.1);
    if end <= usize::MAX {
        link_for(range_at(cs, start, end), v.subrange(sp.0, sp.1), parsed_url(v.subrange(sp.0, sp.1)))
    } else {
        None
    }
}

/// The links of a sequence of spans, skipping the spans that yield none.
pub open spec fn links_of_spans(cs: Seq<char>, a: AttrView, spans: Seq<(int, int)>) -> Seq<DocumentLinkView>
    decreases spans.len(),
{
    if spans.len() == 0 {
        Seq::empty()
    } else {
        let prev = links_of_spans(cs, a, spans.drop_last());
        match span_link(cs, a, spans.last()) {
            Some(l) => prev.push(l),
            None => prev,
        }
    }
}

/// The link of a plain `href` / `src` attribute holding a web URL.
pub open spec fn plain_link_spec(cs: Seq<char>, a: AttrView) -> Option<DocumentLinkView> {
    if a.name != "href"@ && a.name != "src"@ {
        None
    } else {
        let (s, e) = trim_chars(a.value, 0, a.value.len() as int);
        if !is_http(a.value.subrange(s, e)) {
            None
        } else {
            span_link(cs, a, (s, e))
        }
    }
}

/// Every link of the attributes, in attribute order: each attribute's
/// `@{...}` links, then its plain URL link.
pub open spec fn links_spec(cs: Seq<char>, attrs: Seq<AttrView>) -> Seq<DocumentLinkView>
    decreases attrs.len(),
{
    if attrs.len() == 0 {
        Seq::empty()
    } else {
        let a = attrs.last();
        let prev = links_spec(cs, attrs.drop_last()) + links_of_spans(cs, a, link_spans(a.value, 0));
        match plain_link_spec(cs, a) {
            Some(l) => prev.push(l),
            None => prev,
        }
    }
}

/// The byte offsets of the character boundaries of an attribute value.
fn value_boundaries(value: &str, cs: &Vec<char>) -> (r: Vec<usize>)
    requires
        cs@ == value@,
    ensures
        r@.len() == cs@.len() + 1,
        forall|k: int| 0 <= k <= cs@.len() ==> #[trigger] r@[k] == prefix_bytes(cs@, k),
{
    let bytes = value.as_bytes();
    let _ = bytes.len();
    crate::text::char_starts(cs)
}

/// The link for the character span `[s, e)` of the value of `attr`.
fn link_at(doc: &Document, attr: &AttrOccurrence, cs: &Vec<char>, starts: &Vec<usize>, s: usize, e: usize) -> (r: Option<DocumentLink>)
    requires
        cs@ == attr@.value,
        s <= e <= cs@.len(),
        starts@.len() == cs@.len() + 1,
        forall|k: int| 0 <= k <= cs@.len() ==> #[trigger] starts@[k] == prefix_bytes(cs@, k),
    ensures
        r matches Some(l) ==> span_link(doc.chars_view(), attr@, (s as int, e as int)) == Some(l@),
        r is None ==> span_link(doc.chars_view(), attr@, (s as int, e as int)) is None,
{
    let base = attr.value_range.start;
    proof {
        crate::text::lemma_prefix_bytes_mono(cs@, s as int, e as int);
    }
    if starts[e] > usize::MAX - base {
        return None;
    }
    let path = string_of(cs, s, e);
    make_link(doc, base + starts[s], base + starts[e], path.as_str())
}

/// Scans an attribute value for `@{ ... }` link expressions, appending a link
/// for each path found.
fn collect_thymeleaf_links(doc: &Document, attr: &AttrOccurrence, out: &mut Vec<DocumentLink>)
    ensures
        link_views(final(out)@) == link_views(old(out)@) + links_of_spans(
            doc.chars_view(),
            attr@,
            link_spans(attr@.value, 0),
        ),
{
    let cs = chars_of(attr.value.as_str());
    let starts = value_boundaries(attr.value.as_str(), &cs);
    let n = cs.len();
    let ghost v = cs@;
    let ghost first = link_views(out@);
    let ghost mut done: Seq<(int, int)> = Seq::empty();
    let mut i: usize = 0;
    while n >= 2 && i <= n - 2
        invariant
            n == v.len(),
            v == cs@,
            v == attr@.value,
            i <= n,
            starts@.len() == cs@.len() + 1,
            forall|k: int| 0 <= k <= cs@.len() ==> #[trigger] starts@[k] == prefix_bytes(cs@, k),
            link_spans(v, 0) == done + link_spans(v, i as int),
            link_views(out@) == first + links_of_spans(doc.chars_view(), attr@, done),
        ensures
            link_spans(v, 0) == done,
            link_views(out@) == first + links_of_spans(doc.chars_view(), attr@, done),
        decreases n - i,
    {
        if cs[i] == '@' && cs[i + 1] == '{' {
            let open = i + 2;
            // The `}` closing this `@{`, accounting for nested braces such as
            // path variables (`@{/o/{id}(...)}`).
            let mut depth: usize = 1;
            let mut j = open;
            let mut close: Option<usize> = None;
            while j < n
                invariant_except_break
                    close is None,
                invariant
                    open <= j <= n,
                    n == v.len(),
                    v == cs@,
                    open >= 2,
                    1 <= depth <= j - open + 1,
                    close_from(v, open as int, 1) == close_from(v, j as int, depth as nat),
                ensures
                    close matches Some(c) ==> close_from(v, open as int, 1) == Some(c as int) && open <= c < n,
                    close is None ==> close_from(v, open as int, 1) is None,
                decreases n - j,
            {
                if cs[j] == '{' {
                    depth += 1;
                } else if cs[j] == '}' {
                    if depth <= 1 {
                        close = Some(j);
                        break;
                    }
                    depth -= 1;
                }
                j += 1;
            }
            let c = match close {
                Some(c) => c,
                None => {
                    proof {
                        assert(link_spans(v, i as int) =~= Seq::<(int, int)>::empty());
                        assert(done + link_spans(v, i as int) =~= done);
                    }
                    break;
                },
            };
            // The path stops at the `(` that introduces the parameter list.
            let mut pdepth: usize = 0;
            let mut k = open;
            let mut paren: Option<usize> = None;
            while k < c
                invariant_except_break
                    paren is None,
                invariant
                    open <= k <= c < n,
                    n == v.len(),
                    v == cs@,
                    pdepth <= k - open,
                    paren_from(v, open as int, c as int, 0) == paren_from(v, k as int, c as int, pdepth as nat),
                ensures
                    paren matches Some(p) ==> paren_from(v, open as int, c as int, 0) == Some(p as int) && open <= p < c,
                    paren is None ==> paren_from(v, open as int, c as int, 0) is None,
                decreases c - k,
            {
                if cs[k] == '{' {
                    pdepth += 1;
                } else if cs[k] == '}' {
                    if pdepth > 0 {
                        pdepth -= 1;
                    }
                } else if cs[k] == '(' && pdepth == 0 {
                    paren = Some(k);
                    break;
                }
                k += 1;
            }
            let pe = match paren {
                Some(p) => p,
                None => c,
            };
            let ghost before_spans = done;
            // Trim surrounding whitespace while keeping exact offsets.
            let mut s = open;
            while s < pe && unicode_ws(cs[s])
                invariant
                    open <= s <= pe <= n,
                    n == v.len(),
                    v == cs@,
                    ws_fwd(v, s as int, pe as int) == ws_fwd(v, open as int, pe as int),
                decreases pe - s,
            {
                s += 1;
            }
            let mut e = pe;
            while e > s && unicode_ws(cs[e - 1])
                invariant
                    s <= e <= pe <= n,
                    n == v.len(),
                    v == cs@,
                    ws_back(v, s as int, e as int) == ws_back(v, s as int, pe as int),
                decreases e - s,
            {
                e -= 1;
            }
            proof {
                assert((s as int, e as int) == trim_chars(v, open as int, pe as int));
            }
            if s < e {
                let ghost before_out = link_views(out@);
                match link_at(doc, attr, &cs, &starts, s, e) {
                    Some(link) => {
                        out.push(link);
                        proof {
                            assert(link_views(out@) =~= before_out.push(out@.last()@));
                        }
                    },
                    None => {},
                }
                proof {
                    done = done.push((s as int, e as int));
                    assert(done.drop_last() =~= before_spans);
                    assert(link_spans(v, i as int) =~= seq![(s as int, e as int)] + link_spans(v, c + 1));
                    assert(before_spans + link_spans(v, i as int) =~= done + link_spans(v, c + 1));
                }
            } else {
                proof {
                    assert(link_spans(v, i as int) =~= Seq::<(int, int)>::empty() + link_spans(v, c + 1));
                    assert(Seq::<(int, int)>::empty() + link_spans(v, c + 1) =~= link_spans(v, c + 1));
                }
            }
            i = c + 1;
        } else {
            i += 1;
        }
    }
}

/// The link of a plain `href` / `src` attribute whose value is an `http(s)`
/// URL.
fn plain_url_link(doc: &Document, attr: &AttrOccurrence) -> (r: Option<DocumentLink>)
    ensures
        r matches Some(l) ==> plain_link_spec(doc.chars_view(), attr@) == Some(l@),
        r is None ==> plain_link_spec(doc.chars_view(), attr@) is None,
{
    let name = chars_of(attr.name.as_str());
    if !chars_eq(&name, &chars_of("href")) && !chars_eq(&name, &chars_of("src")) {
        return None;
    }
    let cs = chars_of(attr.value.as_str());
    let n = cs.len();
    let mut s: usize = 0;
    while s < n && unicode_ws(cs[s])
        invariant
            s <= n == cs@.len(),
            ws_fwd(cs@, s as int, n as int) == ws_fwd(cs@, 0, n as int),
        decreases n - s,
    {
        s += 1;
    }
    let mut e = n;
    while e > s && unicode_ws(cs[e - 1])
        invariant
            s <= e <= n == cs@.len(),
            ws_back(cs@, s as int, e as int) == ws_back(cs@, s as int, n as int),
        decreases e - s,
    {
        e -= 1;
    }
    let path = string_of(&cs, s, e);
    if !http_path(path.as_str()) {
        return None;
    }
    let starts = value_boundaries(attr.value.as_str(), &cs);
    link_at(doc, attr, &cs, &starts, s, e)
}

/// Collects the links of every URL-bearing attribute of `doc`.
pub fn document_links(doc: &Document) -> (r: Vec<DocumentLink>)
    ensures
        link_views(r@) == links_spec(doc.chars_view(), doc_attrs(*doc)),
{
    let attrs = doc.attributes();
    let ghost av = views(attrs@);
    let ghost cs = doc.chars_view();
    let mut out: Vec<DocumentLink> = Vec::new();
    let mut k: usize = 0;
    proof {
        assert(av.take(0) =~= Seq::<AttrView>::empty());
        assert(link_views(out@) =~= links_spec(cs, av.take(0)));
    }
    while k < attrs.len()
        invariant
            k <= attrs@.len(),
            av == views(attrs@),
            av == doc_attrs(*doc),
            cs == doc.chars_view(),
            link_views(out@) == links_spec(cs, av.take(k as int)),
        decreases attrs@.len() - k,
    {
        proof {
            assert(av.take(k + 1).drop_last() =~= av.take(k as int));
            assert(av.take(k + 1).last() == attrs@[k as int]@);
        }
        let attr = &attrs[k];
        collect_thymeleaf_links(doc, attr, &mut out);
        match plain_url_link(doc, attr) {
            Some(link) => {
                let ghost before = link_views(out@);
                out.push(link);
                proof {
                    assert(link_views(out@) =~= before.push(out@.last()@));
                }
            },
            None => {},
        }
        k += 1;
    }
    proof {
        assert(av.take(attrs@.len() as int) =~= av);
    }
    out
}

} // verus!
