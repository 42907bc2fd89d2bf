//! Parsed-document abstraction: text plus its HTML syntax tree, with position
//! conversions and the cursor-context helpers used by the feature modules.
//!
//! Position encoding: the LSP `character` of a [`Position`] counts UTF-16 code
//! units within the line, while the syntax tree and every range in this crate
//! use UTF-8 byte offsets. [`Document::offset_at`] and [`Document::position_at`]
//! are the single conversion boundary between the two.

use std::ops::Range;
use vstd::prelude::*;
use vstd::string::*;
use vstd::utf8::encode_utf8;
use crate::syntax::{
    model_wf, node_wf, parse_html, read_tree, NodeKind, SyntaxNode,
};
use crate::text::{
    char_floor, char_starts, chars_of, floor_char, lemma_char_floor, lemma_prefix_bytes_mono,
    lemma_prefix_bytes_step, lemma_width_matches_encoding, len_utf16, prefix_bytes, string_of,
    utf16_len, utf16_width,
};

verus! {

/// An LSP position: 0-based line and UTF-16 code-unit offset within the line.
#[derive(Debug, Clone, Copy, PartialEq, Eq, Structural)]
pub struct Position {
    pub line: u32,
    pub character: u32,
}

/// An LSP range: a pair of positions.
#[derive(Debug, Clone, Copy, PartialEq, Eq, Structural)]
pub struct LspRange {
    pub start: Position,
    pub end: Position,
}

// === Position specifications ===============================================

/// Number of `'\n'` characters in `cs`.
pub open spec fn newline_count(cs: Seq<char>) -> nat
    decreases cs.len(),
{
    if cs.len() == 0 {
        0
    } else {
        newline_count(cs.drop_last()) + if cs.last() == '\n' {
            1nat
        } else {
            0nat
        }
    }
}

/// Index just past the last `'\n'` of `cs` (0 when there is none).
pub open spec fn line_start_of(cs: Seq<char>) -> int
    decreases cs.len(),
{
    if cs.len() == 0 {
        0
    } else if cs.last() == '\n' {
        cs.len() as int
    } else {
        line_start_of(cs.drop_last())
    }
}

/// The (line, UTF-16 character) position of character index `k`.
pub open spec fn position_of(cs: Seq<char>, k: int) -> (nat, nat) {
    let p = cs.take(k);
    (newline_count(p), utf16_len(p.skip(line_start_of(p))))
}

/// The position `position_at(b)` reports: `b` clamped to the text and moved
/// down to a character boundary.
pub open spec fn position_at_spec(cs: Seq<char>, b: int) -> (nat, nat) {
    let total = prefix_bytes(cs, cs.len() as int) as int;
    position_of(cs, char_floor(cs, if b <= total { b } else { total }))
}

/// `position_at_spec` as a [`Position`].
pub open spec fn pos_at(cs: Seq<char>, b: int) -> Position {
    Position { line: position_at_spec(cs, b).0 as u32, character: position_at_spec(cs, b).1 as u32 }
}

/// The LSP range between byte offsets `a` and `b`.
pub open spec fn range_at(cs: Seq<char>, a: int, b: int) -> LspRange {
    LspRange { start: pos_at(cs, a), end: pos_at(cs, b) }
}

/// Character index reached from `i` once `target` lines have been passed,
/// counting from `line`.
pub open spec fn skip_lines(cs: Seq<char>, i: int, target: nat, line: nat) -> int
    decreases cs.len() - i,
{
    if line >= target || i >= cs.len() || i < 0 {
        i
    } else {
        skip_lines(
            cs,
            i + 1,
            target,
            if cs[i] == '\n' {
                line + 1
            } else {
                line
            },
        )
    }
}

/// Character index reached from `i` by advancing whole characters of the
/// current line while their UTF-16 units, counted from `units`, stay within
/// `target`.
pub open spec fn advance_units(cs: Seq<char>, i: int, target: nat, units: nat) -> int
    decreases cs.len() - i,
{
    if units < target && 0 <= i < cs.len() && cs[i] != '\n' && units + utf16_width(cs[i])
        <= target {
        advance_units(cs, i + 1, target, units + utf16_width(cs[i]))
    } else {
        i
    }
}

/// The character index `offset_at(line, character)` resolves to.
pub open spec fn offset_char_index(cs: Seq<char>, line: nat, character: nat) -> int {
    advance_units(cs, skip_lines(cs, 0, line, 0), character, 0)
}

pub proof fn lemma_offset_char_index_range(cs: Seq<char>, line: nat, character: nat)
    ensures
        0 <= offset_char_index(cs, line, character) <= cs.len(),
{
    lemma_skip_lines_range(cs, 0, line, 0);
    lemma_advance_units_range(cs, skip_lines(cs, 0, line, 0), character, 0);
}

proof fn lemma_skip_lines_range(cs: Seq<char>, i: int, target: nat, line: nat)
    requires
        0 <= i <= cs.len(),
    ensures
        i <= skip_lines(cs, i, target, line) <= cs.len(),
    decreases cs.len() - i,
{
    if !(line >= target || i >= cs.len()) {
        lemma_skip_lines_range(cs, i + 1, target, if cs[i] == '\n' { line + 1 } else { line });
    }
}

proof fn lemma_advance_units_range(cs: Seq<char>, i: int, target: nat, units: nat)
    requires
        0 <= i <= cs.len(),
    ensures
        i <= advance_units(cs, i, target, units) <= cs.len(),
    decreases cs.len() - i,
{
    if units < target && 0 <= i < cs.len() && cs[i] != '\n' && units + utf16_width(cs[i])
        <= target {
        lemma_advance_units_range(cs, i + 1, target, units + utf16_width(cs[i]));
    }
}

/// UTF-16 units of a stretch never exceed its UTF-8 bytes.
pub proof fn lemma_utf16_le_bytes(cs: Seq<char>, a: int, j: int)
    requires
        0 <= a <= j <= cs.len(),
    ensures
        utf16_len(cs.subrange(a, j)) + prefix_bytes(cs, a) <= prefix_bytes(cs, j),
    decreases j - a,
{
    if j > a {
        lemma_utf16_le_bytes(cs, a, j - 1);
        assert(cs.subrange(a, j).drop_last() =~= cs.subrange(a, j - 1));
        lemma_prefix_bytes_step(cs, j - 1);
        lemma_width_matches_encoding(cs[j - 1]);
    } else {
        assert(cs.subrange(a, j).len() == 0);
    }
}

proof fn lemma_newlines_le(cs: Seq<char>)
    ensures
        newline_count(cs) <= cs.len(),
        0 <= line_start_of(cs) <= cs.len(),
    decreases cs.len(),
{
    if cs.len() > 0 {
        lemma_newlines_le(cs.drop_last());
    }
}

// === Round trip ============================================================

proof fn lemma_newline_count_step(cs: Seq<char>, i: int)
    requires
        0 <= i < cs.len(),
    ensures
        newline_count(cs.take(i + 1)) == newline_count(cs.take(i)) + if cs[i] == '\n' {
            1nat
        } else {
            0nat
        },
{
    assert(cs.take(i + 1).drop_last() =~= cs.take(i));
}

proof fn lemma_newline_count_mono(cs: Seq<char>, i: int, j: int)
    requires
        0 <= i <= j <= cs.len(),
    ensures
        newline_count(cs.take(i)) <= newline_count(cs.take(j)),
    decreases j - i,
{
    if i < j {
        lemma_newline_count_mono(cs, i, j - 1);
        lemma_newline_count_step(cs, j - 1);
    }
}

/// The start of the line holding index `k`: `line_start_of` of the prefix,
/// with the line's newline just before it and none from there to `k`.
proof fn lemma_line_start(cs: Seq<char>, k: int)
    requires
        0 <= k <= cs.len(),
    ensures
        0 <= line_start_of(cs.take(k)) <= k,
        newline_count(cs.take(line_start_of(cs.take(k)))) == newline_count(cs.take(k)),
        line_start_of(cs.take(k)) > 0 ==> cs[line_start_of(cs.take(k)) - 1] == '\n',
        forall|t: int| line_start_of(cs.take(k)) <= t < k ==> cs[t] != '\n',
    decreases k,
{
    if k > 0 {
        assert(cs.take(k).drop_last() =~= cs.take(k - 1));
        lemma_newline_count_step(cs, k - 1);
        if cs[k - 1] != '\n' {
            lemma_line_start(cs, k - 1);
        } else {
            assert(cs.take(k).last() == cs[k - 1]);
        }
    }
}

proof fn lemma_skip_lines_to(cs: Seq<char>, i: int, ls: int)
    requires
        0 <= i <= ls <= cs.len(),
        ls > 0 ==> cs[ls - 1] == '\n',
    ensures
        skip_lines(cs, i, newline_count(cs.take(ls)), newline_count(cs.take(i))) == ls,
    decreases ls - i,
{
    let target = newline_count(cs.take(ls));
    if i < ls {
        lemma_newline_count_step(cs, i);
        lemma_newline_count_step(cs, ls - 1);
        if i + 1 <= ls - 1 {
            lemma_newline_count_mono(cs, i + 1, ls - 1);
        }
        lemma_newline_count_mono(cs, i, ls - 1);
        lemma_skip_lines_to(cs, i + 1, ls);
    }
}

proof fn lemma_utf16_len_step(cs: Seq<char>, a: int, j: int)
    requires
        0 <= a <= j < cs.len(),
    ensures
        utf16_len(cs.subrange(a, j + 1)) == utf16_len(cs.subrange(a, j)) + utf16_width(cs[j]),
{
    assert(cs.subrange(a, j + 1).drop_last() =~= cs.subrange(a, j));
}

proof fn lemma_utf16_len_split(cs: Seq<char>, a: int, i: int, k: int)
    requires
        0 <= a <= i <= k <= cs.len(),
    ensures
        utf16_len(cs.subrange(a, k)) == utf16_len(cs.subrange(a, i)) + utf16_len(cs.subrange(i, k)),
        utf16_len(cs.subrange(i, k)) >= k - i,
    decreases k - i,
{
    if i < k {
        lemma_utf16_len_split(cs, a, i, k - 1);
        lemma_utf16_len_step(cs, a, k - 1);
        lemma_utf16_len_step(cs, i, k - 1);
    } else {
        assert(cs.subrange(i, k).len() == 0);
    }
}

proof fn lemma_advance_units_to(cs: Seq<char>, ls: int, i: int, k: int)
    requires
        0 <= ls <= i <= k <= cs.len(),
        forall|t: int| ls <= t < k ==> cs[t] != '\n',
    ensures
        advance_units(cs, i, utf16_len(cs.subrange(ls, k)), utf16_len(cs.subrange(ls, i))) == k,
    decreases k - i,
{
    let target = utf16_len(cs.subrange(ls, k));
    lemma_utf16_len_split(cs, ls, i, k);
    if i < k {
        lemma_utf16_len_step(cs, ls, i);
        lemma_utf16_len_split(cs, ls, i + 1, k);
        lemma_advance_units_to(cs, ls, i + 1, k);
    }
}

/// Converting a character boundary to a position and back yields the same
/// byte offset: `offset_at(position_at(b)) == b`.
pub proof fn law_offset_position_roundtrip(cs: Seq<char>, k: int)
    requires
        text_fits(cs),
        0 <= k <= cs.len(),
    ensures
        offset_spec(cs, pos_at(cs, prefix_bytes(cs, k) as int)) == prefix_bytes(cs, k),
{
    let b = prefix_bytes(cs, k) as int;
    crate::text::lemma_prefix_bytes_all(cs);
    lemma_prefix_bytes_mono(cs, k, cs.len() as int);
    crate::text::lemma_char_floor_exact(cs, k);
    assert(char_floor(cs, b) == k);
    let p = cs.take(k);
    lemma_line_start(cs, k);
    let ls = line_start_of(p);
    let line = newline_count(p);
    let ch = utf16_len(p.skip(ls));
    assert(p.skip(ls) =~= cs.subrange(ls, k));
    lemma_newlines_le(p);
    crate::text::lemma_prefix_bytes_mono(cs, 0, k);
    crate::text::lemma_prefix_bytes_zero(cs);
    lemma_utf16_le_bytes(cs, ls, k);
    lemma_prefix_bytes_mono(cs, ls, k);
    assert(line <= u32::MAX);
    assert(ch <= u32::MAX);
    assert(position_at_spec(cs, b) == (line, ch));
    let pos = pos_at(cs, b);
    assert(pos.line as nat == line);
    assert(pos.character as nat == ch);
    assert(cs.take(0) =~= Seq::<char>::empty());
    lemma_skip_lines_to(cs, 0, ls);
    assert(cs.subrange(ls, ls) =~= Seq::<char>::empty());
    lemma_advance_units_to(cs, ls, ls, k);
}

proof fn lemma_skip_lines_land(cs: Seq<char>, i: int, target: nat, line: nat)
    requires
        0 <= i <= cs.len(),
        line == newline_count(cs.take(i)),
        line <= target,
        i == 0 || cs[i - 1] == '\n',
    ensures
        ({
            let r = skip_lines(cs, i, target, line);
            &&& i <= r <= cs.len()
            &&& (r == cs.len() || ((r == 0 || cs[r - 1] == '\n') && newline_count(cs.take(r))
                == target))
        }),
    decreases cs.len() - i,
{
    if !(line >= target || i >= cs.len()) {
        lemma_newline_count_step(cs, i);
        if cs[i] == '\n' {
            lemma_skip_lines_land(cs, i + 1, target, line + 1);
        } else {
            // Inside a line: run on to its end, where the count steps up.
            lemma_skip_lines_inner(cs, i + 1, target, line);
        }
    }
}

proof fn lemma_skip_lines_inner(cs: Seq<char>, i: int, target: nat, line: nat)
    requires
        0 <= i <= cs.len(),
        line == newline_count(cs.take(i)),
        line < target,
    ensures
        ({
            let r = skip_lines(cs, i, target, line);
            &&& i <= r <= cs.len()
            &&& (r == cs.len() || ((r == 0 || cs[r - 1] == '\n') && newline_count(cs.take(r))
                == target))
        }),
    decreases cs.len() - i,
{
    if i < cs.len() {
        lemma_newline_count_step(cs, i);
        if cs[i] == '\n' {
            lemma_skip_lines_land(cs, i + 1, target, line + 1);
        } else {
            lemma_skip_lines_inner(cs, i + 1, target, line);
        }
    }
}

proof fn lemma_advance_units_max(cs: Seq<char>, ls: int, i: int, target: nat)
    requires
        0 <= ls <= i <= cs.len(),
        forall|t: int| ls <= t < i ==> cs[t] != '\n',
        utf16_len(cs.subrange(ls, i)) <= target,
    ensures
        ({
            let r = advance_units(cs, i, target, utf16_len(cs.subrange(ls, i)));
            &&& i <= r <= cs.len()
            &&& (forall|t: int| ls <= t < r ==> cs[t] != '\n')
            &&& utf16_len(cs.subrange(ls, r)) <= target
            &&& (r < cs.len() && cs[r] != '\n' ==> utf16_len(cs.subrange(ls, r + 1)) > target)
        }),
    decreases cs.len() - i,
{
    let units = utf16_len(cs.subrange(ls, i));
    if i < cs.len() {
        lemma_utf16_len_step(cs, ls, i);
    }
    if units < target && 0 <= i < cs.len() && cs[i] != '\n' && units + utf16_width(cs[i])
        <= target {
        lemma_advance_units_max(cs, ls, i + 1, target);
    }
}

/// `offset_at` lands on the last character boundary of the requested line
/// whose UTF-16 column does not pass the requested one: the line starts after
/// the `line`-th newline (or the text ends first), no newline is crossed, and one more
/// character of the line would pass the column.
pub proof fn law_offset_is_last_boundary(cs: Seq<char>, line: nat, character: nat)
    ensures
        ({
            let ls = skip_lines(cs, 0, line, 0);
            let k = offset_char_index(cs, line, character);
            &&& 0 <= ls <= k <= cs.len()
            &&& (ls == cs.len() || ((ls == 0 || cs[ls - 1] == '\n') && newline_count(cs.take(ls))
                == line))
            &&& (forall|t: int| ls <= t < k ==> cs[t] != '\n')
            &&& utf16_len(cs.subrange(ls, k)) <= character
            &&& (k < cs.len() && cs[k] != '\n' ==> utf16_len(cs.subrange(ls, k + 1)) > character)
        }),
{
    assert(cs.take(0) =~= Seq::<char>::empty());
    lemma_skip_lines_land(cs, 0, line, 0);
    let ls = skip_lines(cs, 0, line, 0);
    assert(cs.subrange(ls, ls) =~= Seq::<char>::empty());
    lemma_advance_units_max(cs, ls, ls, character);
}

// === Tree specifications ===================================================

/// The text a node spans.
pub open spec fn node_text(cs: Seq<char>, nodes: Seq<SyntaxNode>, i: int) -> Seq<char> {
    cs.subrange(nodes[i].start_char as int, nodes[i].end_char as int)
}

/// The byte range a node spans.
pub open spec fn byte_range_of(n: SyntaxNode) -> Range<usize> {
    Range { start: n.start_byte, end: n.end_byte }
}

/// `c` followed by its later siblings.
pub open spec fn sibling_chain(nodes: Seq<SyntaxNode>, c: int) -> Seq<int>
    decreases nodes.len() - c,
{
    if 0 <= c < nodes.len() {
        seq![c] + match nodes[c].next_sibling {
            Some(s) => if c < s < nodes.len() {
                sibling_chain(nodes, s as int)
            } else {
                Seq::<int>::empty()
            },
            None => Seq::<int>::empty(),
        }
    } else {
        Seq::<int>::empty()
    }
}

/// The children of node `i`, in order.
pub open spec fn children(nodes: Seq<SyntaxNode>, i: int) -> Seq<int> {
    match nodes[i].first_child {
        Some(c) => sibling_chain(nodes, c as int),
        None => Seq::<int>::empty(),
    }
}

/// The first of `kids` whose kind is `k1` or `k2`.
pub open spec fn first_of_kinds(nodes: Seq<SyntaxNode>, kids: Seq<int>, k1: NodeKind, k2: NodeKind) -> Option<int>
    decreases kids.len(),
{
    if kids.len() == 0 {
        None
    } else if nodes[kids[0]].kind == k1 || nodes[kids[0]].kind == k2 {
        Some(kids[0])
    } else {
        first_of_kinds(nodes, kids.drop_first(), k1, k2)
    }
}

/// Names, values and ranges gathered from an `attribute` node's children.
pub struct AttrInfoView {
    pub name: Seq<char>,
    pub name_range: Range<usize>,
    pub value: Seq<char>,
    /// Inner value content range (excludes quotes).
    pub value_range: Option<Range<usize>>,
    /// Full value span *including* surrounding quotes, for hit-testing.
    pub value_span: Option<Range<usize>>,
}

/// The range just inside a pair of empty quotes spanning `r`.
pub open spec fn inside_quotes(r: Range<usize>) -> Range<usize> {
    let s = if r.start + 1 <= r.end {
        (r.start + 1) as usize
    } else {
        r.end
    };
    let e0: int = if r.end >= 1 {
        r.end - 1
    } else {
        0
    };
    let e = if e0 >= r.start {
        e0 as usize
    } else {
        r.start
    };
    Range { start: s, end: e }
}

/// Folds child `c` into the attribute description `acc`.
pub open spec fn info_step(cs: Seq<char>, nodes: Seq<SyntaxNode>, acc: AttrInfoView, c: int) -> AttrInfoView {
    let n = nodes[c];
    let r = byte_range_of(n);
    if n.kind == NodeKind::AttributeName {
        AttrInfoView { name: node_text(cs, nodes, c), name_range: r, ..acc }
    } else if n.kind == NodeKind::AttributeValue {
        AttrInfoView {
            value: node_text(cs, nodes, c),
            value_range: Some(r),
            value_span: Some(r),
            ..acc
        }
    } else if n.kind == NodeKind::QuotedAttributeValue {
        match first_of_kinds(nodes, children(nodes, c), NodeKind::AttributeValue, NodeKind::AttributeValue) {
            Some(inner) => AttrInfoView {
                value: node_text(cs, nodes, inner),
                value_range: Some(byte_range_of(nodes[inner])),
                value_span: Some(r),
                ..acc
            },
            None => AttrInfoView { value_range: Some(inside_quotes(r)), value_span: Some(r), ..acc },
        }
    } else {
        acc
    }
}

/// Folds `kids` in order into `acc`.
pub open spec fn info_over(cs: Seq<char>, nodes: Seq<SyntaxNode>, acc: AttrInfoView, kids: Seq<int>) -> AttrInfoView
    decreases kids.len(),
{
    if kids.len() == 0 {
        acc
    } else {
        info_step(cs, nodes, info_over(cs, nodes, acc, kids.drop_last()), kids.last())
    }
}

/// The description of attribute node `a`.
pub open spec fn attr_info_spec(cs: Seq<char>, nodes: Seq<SyntaxNode>, a: int) -> AttrInfoView {
    let init = AttrInfoView {
        name: Seq::<char>::empty(),
        name_range: byte_range_of(nodes[a]),
        value: Seq::<char>::empty(),
        value_range: None,
        value_span: None,
    };
    info_over(cs, nodes, init, children(nodes, a))
}

/// The spec view of an [`AttrOccurrence`].
pub struct AttrView {
    pub name: Seq<char>,
    pub value: Seq<char>,
    pub name_range: Range<usize>,
    pub value_range: Range<usize>,
}

/// The occurrence reported for attribute node `a`: an absent value sits,
/// empty, at the end of the name.
pub open spec fn occurrence_spec(cs: Seq<char>, nodes: Seq<SyntaxNode>, a: int) -> AttrView {
    let info = attr_info_spec(cs, nodes, a);
    AttrView {
        name: info.name,
        value: info.value,
        name_range: info.name_range,
        value_range: match info.value_range {
            Some(r) => r,
            None => Range { start: info.name_range.end, end: info.name_range.end },
        },
    }
}

/// Indices of the `attribute` nodes among the first `n`, in arena order.
pub open spec fn attr_indices(nodes: Seq<SyntaxNode>, n: int) -> Seq<int>
    decreases n,
{
    if n <= 0 {
        Seq::<int>::empty()
    } else if nodes[n - 1].kind == NodeKind::Attribute {
        attr_indices(nodes, n - 1).push(n - 1)
    } else {
        attr_indices(nodes, n - 1)
    }
}

/// Where a stable insertion of `x` into `s` (sorted by name start) goes.
pub open spec fn insert_pos(s: Seq<AttrView>, x: AttrView) -> int
    decreases s.len(),
{
    if s.len() == 0 {
        0
    } else if s.last().name_range.start <= x.name_range.start {
        s.len() as int
    } else {
        insert_pos(s.drop_last(), x)
    }
}

/// `s` stably sorted by the start of the name range.
pub open spec fn sort_by_name_start(s: Seq<AttrView>) -> Seq<AttrView>
    decreases s.len(),
{
    if s.len() == 0 {
        s
    } else {
        let sorted = sort_by_name_start(s.drop_last());
        let p = insert_pos(sorted, s.last());
        sorted.take(p).push(s.last()) + sorted.skip(p)
    }
}

/// Every attribute of the document, sorted by the position of its name.
pub open spec fn attributes_spec(cs: Seq<char>, nodes: Seq<SyntaxNode>) -> Seq<AttrView> {
    sort_by_name_start(
        attr_indices(nodes, nodes.len() as int).map_values(|a: int| occurrence_spec(cs, nodes, a)),
    )
}

proof fn lemma_insert_pos_range(s: Seq<AttrView>, x: AttrView)
    ensures
        0 <= insert_pos(s, x) <= s.len(),
    decreases s.len(),
{
    if s.len() > 0 {
        lemma_insert_pos_range(s.drop_last(), x);
    }
}

proof fn lemma_sort_len(s: Seq<AttrView>)
    ensures
        sort_by_name_start(s).len() == s.len(),
    decreases s.len(),
{
    if s.len() > 0 {
        lemma_sort_len(s.drop_last());
        lemma_insert_pos_range(sort_by_name_start(s.drop_last()), s.last());
    }
}

proof fn lemma_chain_unfold(nodes: Seq<SyntaxNode>, cs: Seq<char>, c: int)
    requires
        model_wf(nodes, cs),
        0 <= c < nodes.len(),
    ensures
        sibling_chain(nodes, c) == seq![c] + match nodes[c].next_sibling {
            Some(s) => sibling_chain(nodes, s as int),
            None => Seq::<int>::empty(),
        },
{
    assert(node_wf(nodes, c, cs));
}

proof fn lemma_chain_valid(nodes: Seq<SyntaxNode>, cs: Seq<char>, c: int)
    requires
        model_wf(nodes, cs),
    ensures
        forall|t: int| 0 <= t < sibling_chain(nodes, c).len() ==> c <= #[trigger] sibling_chain(nodes, c)[t] < nodes.len(),
    decreases nodes.len() - c,
{
    if 0 <= c < nodes.len() {
        assert(node_wf(nodes, c, cs));
        match nodes[c].next_sibling {
            Some(s) => {
                lemma_chain_valid(nodes, cs, s as int);
                let ch = sibling_chain(nodes, c);
                assert(ch == seq![c] + sibling_chain(nodes, s as int));
                assert forall|t: int| 0 <= t < ch.len() implies c <= #[trigger] ch[t] < nodes.len() by {
                    if t > 0 {
                        assert(ch[t] == sibling_chain(nodes, s as int)[t - 1]);
                    }
                }
            },
            None => {},
        }
    }
}

/// The tag name of a `start_tag` / `self_closing_tag` / `element` node (for
/// an element, the name in its start tag).
pub open spec fn tag_name_spec(cs: Seq<char>, nodes: Seq<SyntaxNode>, n: int) -> Option<Seq<char>> {
    let container = if nodes[n].kind == NodeKind::Element {
        match first_of_kinds(nodes, children(nodes, n), NodeKind::StartTag, NodeKind::SelfClosingTag) {
            Some(c) => c,
            None => n,
        }
    } else {
        n
    };
    match first_of_kinds(nodes, children(nodes, container), NodeKind::TagName, NodeKind::TagName) {
        Some(t) => Some(node_text(cs, nodes, t)),
        None => None,
    }
}

/// What the cursor is sitting on, as a spec value.
pub enum ContextView {
    AttrName { tag: Seq<char>, partial: Seq<char> },
    AttrValue { tag: Seq<char>, attr: Seq<char>, value: Seq<char> },
    TagName { partial: Seq<char> },
    Text,
    Other,
}

pub open spec fn or_empty(s: Option<Seq<char>>) -> Seq<char> {
    match s {
        Some(v) => v,
        None => Seq::<char>::empty(),
    }
}

/// The context of a cursor at byte `offset` inside attribute node `a`: a value
/// edit when the offset lies in the quoted value span, otherwise a name edit
/// whose partial text runs from the name start to the cursor (or is the whole
/// name when the cursor is outside it).
pub open spec fn attribute_context_spec(cs: Seq<char>, nodes: Seq<SyntaxNode>, a: int, offset: int) -> ContextView {
    let info = attr_info_spec(cs, nodes, a);
    let tag = match nodes[a].parent {
        Some(p) => or_empty(tag_name_spec(cs, nodes, p as int)),
        None => Seq::<char>::empty(),
    };
    if info.value_span matches Some(vs) && vs.start <= offset <= vs.end {
        ContextView::AttrValue { tag, attr: info.name, value: info.value }
    } else {
        let partial = if info.name_range.start <= offset <= info.name_range.end {
            cs.subrange(char_floor(cs, info.name_range.start as int), char_floor(cs, offset))
        } else {
            info.name
        };
        ContextView::AttrName { tag, partial }
    }
}

/// Walks up from node `n` to the first attribute, tag name, tag, or text node.
pub open spec fn context_walk(cs: Seq<char>, nodes: Seq<SyntaxNode>, n: int, offset: int) -> ContextView
    decreases n,
{
    if n < 0 || n >= nodes.len() {
        ContextView::Other
    } else {
        let k = nodes[n].kind;
        if k == NodeKind::Attribute {
            attribute_context_spec(cs, nodes, n, offset)
        } else if k == NodeKind::TagName {
            ContextView::TagName { partial: node_text(cs, nodes, n) }
        } else if k == NodeKind::StartTag || k == NodeKind::SelfClosingTag {
            ContextView::AttrName { tag: or_empty(tag_name_spec(cs, nodes, n)), partial: Seq::<char>::empty() }
        } else if k == NodeKind::Text {
            ContextView::Text
        } else {
            match nodes[n].parent {
                Some(p) => if p < n {
                    context_walk(cs, nodes, p as int, offset)
                } else {
                    ContextView::Other
                },
                None => ContextView::Other,
            }
        }
    }
}

/// The context for a cursor at `offset` whose deepest enclosing node is `node`.
pub open spec fn context_spec(cs: Seq<char>, nodes: Seq<SyntaxNode>, node: Option<int>, offset: int) -> ContextView {
    match node {
        Some(n) => context_walk(cs, nodes, n, offset),
        None => ContextView::Other,
    }
}

impl View for CursorContext {
    type V = ContextView;

    open spec fn view(&self) -> ContextView {
        match self {
            CursorContext::AttrName { tag, partial } => ContextView::AttrName { tag: tag@, partial: partial@ },
            CursorContext::AttrValue { tag, attr, value } => ContextView::AttrValue {
                tag: tag@,
                attr: attr@,
                value: value@,
            },
            CursorContext::TagName { partial } => ContextView::TagName { partial: partial@ },
            CursorContext::Text => ContextView::Text,
            CursorContext::Other => ContextView::Other,
        }
    }
}

/// What the cursor is sitting on, as far as the features need to know.
#[derive(Debug, Clone, PartialEq, Eq)]
pub enum CursorContext {
    /// Editing an attribute name inside a tag.
    AttrName { tag: String, partial: String },
    /// Editing an attribute value inside a tag.
    AttrValue { tag: String, attr: String, value: String },
    /// Editing a tag name.
    TagName { partial: String },
    /// Inside element text content.
    Text,
    /// Anywhere else (comments, doctype, top-level whitespace, ...).
    Other,
}

/// The views of a sequence of attribute occurrences.
pub open spec fn views(s: Seq<AttrOccurrence>) -> Seq<AttrView> {
    s.map_values(|o: AttrOccurrence| o@)
}

/// The spec view of an attribute occurrence.
impl View for AttrOccurrence {
    type V = AttrView;

    open spec fn view(&self) -> AttrView {
        AttrView {
            name: self.name@,
            value: self.value@,
            name_range: self.name_range,
            value_range: self.value_range,
        }
    }
}

/// A parsed attribute with its name, value, and byte ranges within the source.
#[derive(Debug)]
pub struct AttrOccurrence {
    pub name: String,
    pub value: String,
    /// Byte range of the attribute name.
    pub name_range: Range<usize>,
    /// Byte range of the attribute value (inner content, excluding quotes).
    pub value_range: Range<usize>,
}

/// Executable counterpart of [`AttrInfoView`].
struct AttrInfo {
    name: String,
    name_range: Range<usize>,
    value: String,
    value_range: Option<Range<usize>>,
    value_span: Option<Range<usize>>,
}

impl AttrInfo {
    spec fn view(&self) -> AttrInfoView {
        AttrInfoView {
            name: self.name@,
            name_range: self.name_range,
            value: self.value@,
            value_range: self.value_range,
            value_span: self.value_span,
        }
    }
}

/// The text after a content change: the whole text replaced when either
/// position is missing, otherwise the characters between the two positions
/// (in either order) replaced by `new_text`.
pub open spec fn change_spec(cs: Seq<char>, range: Option<Position>, end: Option<Position>, new_text: Seq<char>) -> Seq<char> {
    match (range, end) {
        (Some(s), Some(e)) => {
            let a = offset_char_index(cs, s.line as nat, s.character as nat);
            let b = offset_char_index(cs, e.line as nat, e.character as nat);
            let lo = if a <= b { a } else { b };
            let hi = if a <= b { b } else { a };
            cs.take(lo) + new_text + cs.skip(hi)
        },
        _ => new_text,
    }
}

// === Locating the node at an offset ========================================
//
// The syntax arena holds, as plain values, what the features read of the
// parse tree. Locating the smallest node that spans an offset is
// tree-sitter's `descendant_for_byte_range` (and its named variant), whose
// documented behaviour is that one sentence; it is stated here over the
// arena, as its walk goes: from the root, enter the first child that does
// not end before the offset, provided it starts at or before it.

/// The parser takes offsets as 32-bit values: `offset` as it sees it.
pub open spec fn ts_offset_spec(offset: int) -> int {
    offset % 0x1_0000_0000
}

/// `offset` cut to 32 bits, as the parser reads it.
pub fn ts_offset(offset: usize) -> (r: usize)
    ensures
        r == ts_offset_spec(offset as int),
{
    let o: u64 = (offset as u64) % 0x1_0000_0000u64;
    o as usize
}

/// A child the walk towards `offset` passes over: it ends before the offset,
/// or at it unless it is empty.
pub open spec fn skipped_spec(n: SyntaxNode, offset: int) -> bool {
    if n.start_byte == n.end_byte {
        n.end_byte < offset
    } else {
        n.end_byte <= offset
    }
}

pub fn skipped(n: SyntaxNode, offset: usize) -> (r: bool)
    ensures
        r == skipped_spec(n, offset as int),
{
    if n.start_byte == n.end_byte {
        n.end_byte < offset
    } else {
        n.end_byte <= offset
    }
}

/// Among the siblings from `c` on, the one the walk towards `offset` enters:
/// the first not passed over, provided it starts at or before the offset.
pub open spec fn pick_from(nodes: Seq<SyntaxNode>, c: int, offset: int) -> Option<int>
    decreases nodes.len() - c,
{
    if !(0 <= c < nodes.len()) {
        None
    } else if skipped_spec(nodes[c], offset) {
        match nodes[c].next_sibling {
            Some(s) => if c < s < nodes.len() {
                pick_from(nodes, s as int, offset)
            } else {
                None
            },
            None => None,
        }
    } else if nodes[c].start_byte <= offset {
        Some(c)
    } else {
        None
    }
}

/// The walk from node `i` towards `offset`: enter children while one spans
/// the offset, remembering the last node entered (the last named one, with
/// `named_only`).
pub open spec fn descend(nodes: Seq<SyntaxNode>, i: int, offset: int, named_only: bool, last: int) -> int
    decreases nodes.len() - i,
{
    if !(0 <= i < nodes.len()) {
        last
    } else {
        match nodes[i].first_child {
            Some(f) => if i < f {
                match pick_from(nodes, f as int, offset) {
                    Some(c) => if i < c < nodes.len() {
                        descend(
                            nodes,
                            c,
                            offset,
                            named_only,
                            if !named_only || nodes[c].named {
                                c
                            } else {
                                last
                            },
                        )
                    } else {
                        last
                    },
                    None => last,
                }
            } else {
                last
            },
            None => last,
        }
    }
}

pub open spec fn descend_from_root(nodes: Seq<SyntaxNode>, offset: int, named_only: bool) -> Option<int> {
    if nodes.len() == 0 {
        None
    } else {
        Some(descend(nodes, 0, offset, named_only, 0))
    }
}

/// The smallest node spanning byte `offset` (as the parser sees it).
pub open spec fn deepest_at(nodes: Seq<SyntaxNode>, offset: int) -> Option<int> {
    descend_from_root(nodes, ts_offset_spec(offset), false)
}

/// The smallest named node spanning byte `offset` (as the parser sees it).
pub open spec fn named_deepest_at(nodes: Seq<SyntaxNode>, offset: int) -> Option<int> {
    descend_from_root(nodes, ts_offset_spec(offset), true)
}

/// The number of newlines before each character index of `cs`.
pub fn line_starts(cs: &Vec<char>) -> (r: Vec<usize>)
    ensures
        r@.len() == cs@.len() + 1,
        forall|k: int| 0 <= k <= cs@.len() ==> #[trigger] r@[k] == newline_count(cs@.take(k)),
{
    let mut out: Vec<usize> = Vec::new();
    proof {
        assert(cs@.take(0) =~= Seq::<char>::empty());
    }
    out.push(0);
    let mut acc: usize = 0;
    let mut i: usize = 0;
    while i < cs.len()
        invariant
            i <= cs@.len(),
            out@.len() == i + 1,
            acc == newline_count(cs@.take(i as int)),
            forall|k: int| 0 <= k <= i ==> #[trigger] out@[k] == newline_count(cs@.take(k)),
        decreases cs@.len() - i,
    {
        proof {
            lemma_newline_count_step(cs@, i as int);
            lemma_newlines_le(cs@.take(i as int));
        }
        if cs[i] == '\n' {
            acc = acc + 1;
        }
        out.push(acc);
        i += 1;
    }
    out
}

// === The document ==========================================================

/// A parsed HTML document: its full source text and syntax tree.
pub struct Document {
    text: String,
    chars: Vec<char>,
    starts: Vec<usize>,
    nodes: Vec<SyntaxNode>,
}

/// The byte offset `offset_at(pos)` reports for the text `cs`.
pub open spec fn offset_spec(cs: Seq<char>, pos: Position) -> int {
    prefix_bytes(cs, offset_char_index(cs, pos.line as nat, pos.character as nat)) as int
}

/// The attributes of a document, as [`Document::attributes`] reports them.
pub open spec fn doc_attrs(d: Document) -> Seq<AttrView> {
    attributes_spec(d.chars_view(), d.nodes_view())
}

/// The text fits the parser's 32-bit offsets.
pub open spec fn text_fits(cs: Seq<char>) -> bool {
    encode_utf8(cs).len() <= u32::MAX
}

/// Whether `text` fits the parser's 32-bit offsets.
pub fn fits(text: &str) -> (r: bool)
    ensures
        r == text_fits(text@),
{
    let bytes = text.as_bytes();
    (bytes.len() as u64) <= 0xffff_ffffu64
}

impl Document {
    #[verifier::type_invariant]
    spec fn inv(self) -> bool {
        &&& self.chars@ == self.text@
        &&& self.starts@.len() == self.chars@.len() + 1
        &&& forall|i: int|
            0 <= i <= self.chars@.len() ==> #[trigger] self.starts@[i] == prefix_bytes(
                self.chars@,
                i,
            )
        &&& prefix_bytes(self.chars@, self.chars@.len() as int) <= u32::MAX
        &&& model_wf(self.nodes@, self.chars@)
    }

    /// The characters of the document text.
    pub closed spec fn chars_view(&self) -> Seq<char> {
        self.chars@
    }

    /// The syntax-tree arena.
    pub closed spec fn nodes_view(&self) -> Seq<SyntaxNode> {
        self.nodes@
    }

    fn build(text: String) -> (d: Document)
        requires
            text_fits(text@),
        ensures
            d.chars_view() == text@,
    {
        let chars = chars_of(text.as_str());
        proof {
            vstd::utf8::encode_utf8_valid_utf8(chars@);
            assert(chars@.take(chars@.len() as int) =~= chars@);
        }
        let starts = char_starts(&chars);
        let lines = line_starts(&chars);
        let nodes = match parse_html(text.as_str()) {
            Some(t) => read_tree(&t, &chars, &starts, &lines),
            None => Vec::new(),
        };
        Document { text, chars, starts, nodes }
    }

    /// Parses `text` into a new [`Document`].
    pub fn new(text: String) -> (d: Document)
        requires
            text_fits(text@),
        ensures
            d.chars_view() == text@,
    {
        Document::build(text)
    }

    /// Replaces the document text and re-parses it.
    pub fn update(&mut self, text: String)
        requires
            text_fits(text@),
        ensures
            final(self).chars_view() == text@,
    {
        *self = Document::build(text);
    }

    /// Applies a single content change and re-parses.
    ///
    /// When `range` or `end` is `None` the whole document is replaced.
    /// Otherwise the span between the two positions (in either order) is
    /// replaced with `new_text`.
    pub fn apply_change(&mut self, range: Option<Position>, end: Option<Position>, new_text: &str)
        requires
            text_fits(change_spec(old(self).chars_view(), range, end, new_text@)),
        ensures
            final(self).chars_view() == change_spec(old(self).chars_view(), range, end, new_text@),
    {
        proof {
            use_type_invariant(&*self);
        }
        match (range, end) {
            (Some(start), Some(end)) => {
                let a = self.char_index_at(start);
                let b = self.char_index_at(end);
                let (lo, hi) = if a <= b {
                    (a, b)
                } else {
                    (b, a)
                };
                let n = self.chars.len();
                let mut text = string_of(&self.chars, 0, lo);
                text.append(new_text);
                let tail = string_of(&self.chars, hi, n);
                text.append(tail.as_str());
                *self = Document::build(text);
            },
            _ => {
                *self = Document::build(String::from_str(new_text));
            },
        }
    }

    /// The LSP range between two byte offsets.
    pub fn range_of(&self, a: usize, b: usize) -> (r: LspRange)
        ensures
            r == range_at(self.chars_view(), a as int, b as int),
    {
        LspRange { start: self.position_at(a), end: self.position_at(b) }
    }

    /// The full source text.
    pub fn text(&self) -> (r: &str)
        ensures
            r@ == self.chars_view(),
            text_fits(self.chars_view()),
    {
        proof {
            use_type_invariant(self);
            crate::text::lemma_prefix_bytes_all(self.chars@);
        }
        self.text.as_str()
    }

    /// The characters of the text, their start offsets, and the syntax arena,
    /// together with the facts that tie them together.
    pub fn parts(&self) -> (r: (&Vec<char>, &Vec<usize>, &Vec<SyntaxNode>))
        ensures
            r.0@ == self.chars_view(),
            r.2@ == self.nodes_view(),
            r.1@.len() == r.0@.len() + 1,
            forall|i: int| 0 <= i <= r.0@.len() ==> #[trigger] r.1@[i] == prefix_bytes(r.0@, i),
            prefix_bytes(r.0@, r.0@.len() as int) <= u32::MAX,
            model_wf(r.2@, r.0@),
    {
        proof {
            use_type_invariant(self);
        }
        (&self.chars, &self.starts, &self.nodes)
    }

    /// Converts an LSP [`Position`] (line, UTF-16 `character`) to a byte offset
    /// into the text. Clamps to the end of the document / line, and always
    /// returns a character boundary.
    pub fn offset_at(&self, pos: Position) -> (r: usize)
        ensures
            r == prefix_bytes(
                self.chars_view(),
                offset_char_index(self.chars_view(), pos.line as nat, pos.character as nat),
            ),
    {
        proof {
            use_type_invariant(self);
        }
        let k = self.char_index_at(pos);
        self.starts[k]
    }

    /// The character index of an LSP [`Position`].
    fn char_index_at(&self, pos: Position) -> (r: usize)
        ensures
            r == offset_char_index(self.chars_view(), pos.line as nat, pos.character as nat),
            r <= self.chars_view().len(),
    {
        proof {
            use_type_invariant(self);
        }
        let cs = &self.chars;
        let n = cs.len();
        // Advance to the start of the target line by counting newlines.
        let mut i: usize = 0;
        let mut line: u32 = 0;
        while line < pos.line && i < n
            invariant
                n == cs@.len(),
                i <= n,
                line <= pos.line,
                skip_lines(cs@, i as int, pos.line as nat, line as nat) == skip_lines(
                    cs@,
                    0,
                    pos.line as nat,
                    0,
                ),
            decreases n - i,
        {
            if cs[i] == '\n' {
                line += 1;
            }
            i += 1;
        }
        proof {
            lemma_skip_lines_range(cs@, i as int, pos.line as nat, line as nat);
            assert(skip_lines(cs@, i as int, pos.line as nat, line as nat) == i);
        }
        let ghost ls = i as int;
        // Advance `character` UTF-16 code units into the line, stopping at the
        // newline / end of text, and never splitting a surrogate pair.
        let mut units: u32 = 0;
        while units < pos.character && i < n && cs[i] != '\n'
            invariant
                n == cs@.len(),
                0 <= ls <= i <= n,
                units as nat + prefix_bytes(cs@, ls) <= prefix_bytes(cs@, i as int),
                prefix_bytes(cs@, n as int) <= u32::MAX,
                advance_units(cs@, i as int, pos.character as nat, units as nat) == advance_units(
                    cs@,
                    ls,
                    pos.character as nat,
                    0,
                ),
            ensures
                advance_units(cs@, i as int, pos.character as nat, units as nat) == i,
                i <= n,
                advance_units(cs@, ls, pos.character as nat, 0) == i,
            decreases n - i,
        {
            proof {
                lemma_prefix_bytes_step(cs@, i as int);
                lemma_width_matches_encoding(cs@[i as int]);
                lemma_prefix_bytes_mono(cs@, i + 1, n as int);
            }
            let next = units + len_utf16(cs[i]);
            if next > pos.character {
                break;
            }
            i += 1;
            units = next;
        }
        i
    }

    /// Converts a byte offset into an LSP [`Position`] (line, UTF-16
    /// `character`). Clamps `offset` to the document length and to the nearest
    /// preceding character boundary.
    pub fn position_at(&self, offset: usize) -> (r: Position)
        ensures
            (r.line as nat, r.character as nat) == position_at_spec(
                self.chars_view(),
                offset as int,
            ),
            r == pos_at(self.chars_view(), offset as int),
    {
        proof {
            use_type_invariant(self);
        }
        let cs = &self.chars;
        let n = cs.len();
        let total = self.starts[n];
        let k = floor_char(cs, &self.starts, if offset <= total { offset } else { total });
        proof {
            lemma_prefix_bytes_mono(cs@, 0, k as int);
            lemma_prefix_bytes_mono(cs@, k as int, n as int);
        }
        let mut line: u32 = 0;
        let mut line_start: usize = 0;
        let mut i: usize = 0;
        while i < k
            invariant
                k <= n == cs@.len(),
                i <= k,
                k <= prefix_bytes(cs@, n as int) <= u32::MAX,
                line as nat == newline_count(cs@.take(i as int)),
                line_start as int == line_start_of(cs@.take(i as int)),
            decreases k - i,
        {
            proof {
                assert(cs@.take(i + 1).drop_last() =~= cs@.take(i as int));
                lemma_newlines_le(cs@.take(i as int));
            }
            if cs[i] == '\n' {
                line += 1;
                line_start = i + 1;
            }
            i += 1;
        }
        proof {
            lemma_newlines_le(cs@.take(k as int));
            lemma_utf16_le_bytes(cs@, line_start as int, k as int);
            lemma_prefix_bytes_mono(cs@, k as int, n as int);
        }
        // `character` is the number of UTF-16 code units from the line start.
        let mut character: u32 = 0;
        let mut j = line_start;
        while j < k
            invariant
                line_start <= j <= k <= n == cs@.len(),
                prefix_bytes(cs@, n as int) <= u32::MAX,
                prefix_bytes(cs@, k as int) <= prefix_bytes(cs@, n as int),
                character as nat == utf16_len(cs@.subrange(line_start as int, j as int)),
            decreases k - j,
        {
            proof {
                assert(cs@.subrange(line_start as int, j + 1).drop_last() =~= cs@.subrange(
                    line_start as int,
                    j as int,
                ));
                lemma_utf16_le_bytes(cs@, line_start as int, j + 1);
                lemma_prefix_bytes_mono(cs@, line_start as int, j + 1);
                lemma_prefix_bytes_mono(cs@, j + 1, k as int);
            }
            character = character + len_utf16(cs[j]);
            j += 1;
        }
        proof {
            let p = cs@.take(k as int);
            assert(p.skip(line_start as int) =~= cs@.subrange(line_start as int, k as int));
        }
        Position { line, character }
    }

    // === Tree navigation ==================================================

    /// The first child of node `i` whose kind is `k1` or `k2`.
    fn first_child_of_kinds(&self, i: usize, k1: NodeKind, k2: NodeKind) -> (r: Option<usize>)
        requires
            i < self.nodes_view().len(),
        ensures
            r matches Some(c) ==> first_of_kinds(
                self.nodes_view(),
                children(self.nodes_view(), i as int),
                k1,
                k2,
            ) == Some(c as int) && c < self.nodes_view().len(),
            r is None ==> first_of_kinds(
                self.nodes_view(),
                children(self.nodes_view(), i as int),
                k1,
                k2,
            ) is None,
    {
        proof {
            use_type_invariant(self);
        }
        let nodes = &self.nodes;
        let ghost kids = children(nodes@, i as int);
        let mut cur = nodes[i].first_child;
        let ghost mut j: int = 0;
        proof {
            assert(node_wf(nodes@, i as int, self.chars@));
            if cur is None {
                assert(kids.len() == 0);
            }
            assert(kids.skip(0) =~= kids);
        }
        loop
            invariant
                model_wf(nodes@, self.chars@),
                nodes@ == self.nodes_view(),
                0 <= j <= kids.len(),
                kids == children(nodes@, i as int),
                first_of_kinds(nodes@, kids, k1, k2) == first_of_kinds(nodes@, kids.skip(j), k1, k2),
                match cur {
                    Some(c) => 0 <= c < nodes@.len() && sibling_chain(nodes@, c as int) == kids.skip(j),
                    None => j == kids.len(),
                },
            decreases kids.len() - j,
        {
            match cur {
                None => {
                    proof {
                        assert(kids.skip(j).len() == 0);
                    }
                    return None;
                },
                Some(c) => {
                    proof {
                        lemma_chain_unfold(nodes@, self.chars@, c as int);
                        assert(kids.skip(j).len() > 0);
                        assert(node_wf(nodes@, c as int, self.chars@));
                        assert(kids.skip(j)[0] == c);
                        assert(kids.skip(j).drop_first() =~= kids.skip(j + 1));
                    }
                    let k = nodes[c].kind;
                    if k == k1 || k == k2 {
                        proof {
                            assert(first_of_kinds(nodes@, kids.skip(j), k1, k2) == Some(c as int));
                        }
                        return Some(c);
                    }
                    cur = nodes[c].next_sibling;
                    proof {
                        j = j + 1;
                        if cur is None {
                            assert(kids.skip(j - 1).len() == 1);
                        }
                    }
                },
            }
        }
    }

    /// Byte offsets in the document never exceed the text length.
    fn byte_bound(&self, i: usize)
        requires
            i < self.nodes_view().len(),
        ensures
            self.nodes_view()[i as int].start_byte <= self.nodes_view()[i as int].end_byte <= u32::MAX,
    {
        proof {
            use_type_invariant(self);
            assert(node_wf(self.nodes@, i as int, self.chars@));
            let n = self.nodes@[i as int];
            lemma_prefix_bytes_mono(self.chars@, n.start_char as int, n.end_char as int);
            lemma_prefix_bytes_mono(self.chars@, n.end_char as int, self.chars@.len() as int);
        }
    }

    /// Folds child `c` into `info`.
    fn info_step_exec(&self, info: &mut AttrInfo, c: usize)
        requires
            c < self.nodes_view().len(),
        ensures
            final(info).view() == info_step(self.chars_view(), self.nodes_view(), old(info).view(), c as int),
    {
        self.byte_bound(c);
        let n = self.nodes[c];
        let r = n.start_byte..n.end_byte;
        match n.kind {
            NodeKind::AttributeName => {
                info.name = self.node_string(c);
                info.name_range = r;
            },
            NodeKind::AttributeValue => {
                info.value = self.node_string(c);
                info.value_range = Some(n.start_byte..n.end_byte);
                info.value_span = Some(r);
            },
            NodeKind::QuotedAttributeValue => {
                info.value_span = Some(n.start_byte..n.end_byte);
                match self.first_child_of_kinds(c, NodeKind::AttributeValue, NodeKind::AttributeValue) {
                    Some(inner) => {
                        info.value = self.node_string(inner);
                        let m = self.nodes[inner];
                        info.value_range = Some(m.start_byte..m.end_byte);
                    },
                    None => {
                        // Empty quotes: the value range is just inside the quotes.
                        let s = if n.start_byte < n.end_byte {
                            n.start_byte + 1
                        } else {
                            n.end_byte
                        };
                        let e0 = if n.end_byte >= 1 {
                            n.end_byte - 1
                        } else {
                            0
                        };
                        let e = if e0 >= n.start_byte {
                            e0
                        } else {
                            n.start_byte
                        };
                        info.value_range = Some(s..e);
                    },
                }
            },
            _ => {},
        }
    }

    /// Extracts name / value strings and byte ranges from an `attribute` node.
    fn attr_info(&self, a: usize) -> (r: AttrInfo)
        requires
            a < self.nodes_view().len(),
        ensures
            r.view() == attr_info_spec(self.chars_view(), self.nodes_view(), a as int),
    {
        proof {
            use_type_invariant(self);
        }
        self.byte_bound(a);
        let nodes = &self.nodes;
        let an = nodes[a];
        let mut info = AttrInfo {
            name: String::new(),
            name_range: an.start_byte..an.end_byte,
            value: String::new(),
            value_range: None,
            value_span: None,
        };
        let ghost init = info.view();
        let ghost kids = children(nodes@, a as int);
        let mut cur = nodes[a].first_child;
        let ghost mut j: int = 0;
        proof {
            assert(node_wf(nodes@, a as int, self.chars@));
            if cur is None {
                assert(kids.len() == 0);
            }
            assert(kids.skip(0) =~= kids);
            assert(kids.take(0) =~= Seq::<int>::empty());
        }
        loop
            invariant
                model_wf(nodes@, self.chars@),
                nodes@ == self.nodes_view(),
                self.chars@ == self.chars_view(),
                0 <= j <= kids.len(),
                kids == children(nodes@, a as int),
                init == (AttrInfoView {
                    name: Seq::<char>::empty(),
                    name_range: byte_range_of(nodes@[a as int]),
                    value: Seq::<char>::empty(),
                    value_range: None,
                    value_span: None,
                }),
                info.view() == info_over(self.chars@, nodes@, init, kids.take(j)),
                match cur {
                    Some(c) => 0 <= c < nodes@.len() && sibling_chain(nodes@, c as int) == kids.skip(j),
                    None => j == kids.len(),
                },
            decreases kids.len() - j,
        {
            match cur {
                None => {
                    proof {
                        assert(kids.take(j) =~= kids);
                    }
                    return info;
                },
                Some(c) => {
                    proof {
                        lemma_chain_unfold(nodes@, self.chars@, c as int);
                        assert(node_wf(nodes@, c as int, self.chars@));
                        assert(kids.skip(j).len() > 0);
                        assert(kids.skip(j)[0] == c);
                        assert(kids.skip(j).drop_first() =~= kids.skip(j + 1));
                        assert(kids[j] == c);
                        assert(kids.take(j + 1).drop_last() =~= kids.take(j));
                    }
                    self.info_step_exec(&mut info, c);
                    cur = nodes[c].next_sibling;
                    proof {
                        j = j + 1;
                        if cur is None {
                            assert(kids.skip(j - 1).len() == 1);
                        }
                    }
                },
            }
        }
    }

    /// The occurrence reported for attribute node `a`.
    fn occurrence(&self, a: usize) -> (r: AttrOccurrence)
        requires
            a < self.nodes_view().len(),
        ensures
            r@ == occurrence_spec(self.chars_view(), self.nodes_view(), a as int),
    {
        let info = self.attr_info(a);
        let value_range = match info.value_range {
            Some(r) => r,
            None => info.name_range.end..info.name_range.end,
        };
        AttrOccurrence { name: info.name, value: info.value, name_range: info.name_range, value_range }
    }

    /// All attributes across the document, with names, values and byte
    /// ranges, sorted by the position of their names.
    pub fn attributes(&self) -> (r: Vec<AttrOccurrence>)
        ensures
            views(r@) == attributes_spec(self.chars_view(), self.nodes_view()),
    {
        proof {
            use_type_invariant(self);
        }
        let nodes = &self.nodes;
        let mut out: Vec<AttrOccurrence> = Vec::new();
        let mut i: usize = 0;
        proof {
            assert(views(out@) =~= sort_by_name_start(
                attr_indices(nodes@, 0).map_values(|a: int| occurrence_spec(self.chars@, nodes@, a)),
            ));
        }
        while i < nodes.len()
            invariant
                i <= nodes@.len(),
                nodes@ == self.nodes_view(),
                self.chars@ == self.chars_view(),
                views(out@) == sort_by_name_start(
                    attr_indices(nodes@, i as int).map_values(|a: int| occurrence_spec(self.chars@, nodes@, a)),
                ),
            decreases nodes@.len() - i,
        {
            let ghost prev = attr_indices(nodes@, i as int).map_values(|a: int| occurrence_spec(self.chars@, nodes@, a));
            if nodes[i].kind == NodeKind::Attribute {
                let x = self.occurrence(i);
                let ghost xv = x@;
                let ghost sorted = views(out@);
                proof {
                    let next = attr_indices(nodes@, i + 1).map_values(|a: int| occurrence_spec(self.chars@, nodes@, a));
                    assert(attr_indices(nodes@, i + 1) == attr_indices(nodes@, i as int).push(i as int));
                    assert(next =~= prev.push(xv));
                    assert(next.drop_last() =~= prev);
                    lemma_sort_len(prev);
                }
                let mut j = out.len();
                proof {
                    assert(sorted.take(j as int) =~= sorted);
                }
                while j > 0 && out[j - 1].name_range.start > x.name_range.start
                    invariant
                        j <= out@.len(),
                        sorted == views(out@),
                        xv == x@,
                        insert_pos(sorted, xv) == insert_pos(sorted.take(j as int), xv),
                    decreases j,
                {
                    proof {
                        assert(sorted.take(j as int).drop_last() =~= sorted.take(j - 1));
                    }
                    j -= 1;
                }
                proof {
                    if j > 0 {
                        assert(sorted.take(j as int).last() == sorted[j - 1]);
                    }
                    assert(insert_pos(sorted, xv) == j);
                }
                out.insert(j, x);
                proof {
                    assert(views(out@) =~= sorted.take(j as int).push(xv) + sorted.skip(j as int));
                }
            }
            i += 1;
        }
        proof {
            assert(nodes@.len() == self.nodes_view().len());
        }
        out
    }

    /// Finds the `tag_name` text of a `start_tag` / `self_closing_tag` /
    /// `element` node.
    fn tag_name_of(&self, n: usize) -> (r: Option<String>)
        requires
            n < self.nodes_view().len(),
        ensures
            r matches Some(t) ==> tag_name_spec(self.chars_view(), self.nodes_view(), n as int) == Some(t@),
            r is None ==> tag_name_spec(self.chars_view(), self.nodes_view(), n as int) is None,
    {
        let container = if self.nodes[n].kind == NodeKind::Element {
            match self.first_child_of_kinds(n, NodeKind::StartTag, NodeKind::SelfClosingTag) {
                Some(c) => c,
                None => n,
            }
        } else {
            n
        };
        match self.first_child_of_kinds(container, NodeKind::TagName, NodeKind::TagName) {
            Some(t) => Some(self.node_string(t)),
            None => None,
        }
    }

    /// Builds the context for a cursor sitting somewhere within an `attribute`
    /// node, disambiguating between the name and the value.
    fn attribute_context(&self, a: usize, offset: usize) -> (r: CursorContext)
        requires
            a < self.nodes_view().len(),
        ensures
            r@ == attribute_context_spec(self.chars_view(), self.nodes_view(), a as int, offset as int),
    {
        proof {
            use_type_invariant(self);
            assert(node_wf(self.nodes@, a as int, self.chars@));
        }
        let info = self.attr_info(a);
        let tag = match self.nodes[a].parent {
            Some(p) => match self.tag_name_of(p) {
                Some(t) => t,
                None => String::new(),
            },
            None => String::new(),
        };
        // If the cursor is within the (quoted) value span, it's a value edit.
        if let Some(vspan) = &info.value_span {
            if offset >= vspan.start && offset <= vspan.end {
                return CursorContext::AttrValue { tag, attr: info.name, value: info.value };
            }
        }
        // Otherwise it is an attribute-name edit: `partial` is the text of the
        // name up to the cursor when the cursor is inside the name.
        let partial = if offset >= info.name_range.start && offset <= info.name_range.end {
            let lo = floor_char(&self.chars, &self.starts, info.name_range.start);
            let hi = floor_char(&self.chars, &self.starts, offset);
            if lo <= hi {
                string_of(&self.chars, lo, hi)
            } else {
                String::new()
            }
        } else {
            info.name
        };
        proof {
            let lo = char_floor(self.chars@, info.name_range.start as int);
            let hi = char_floor(self.chars@, offset as int);
            if info.name_range.start <= offset <= info.name_range.end {
                lemma_char_floor(self.chars@, info.name_range.start as int, 0);
                lemma_char_floor(self.chars@, offset as int, 0);
                if hi < lo {
                    lemma_prefix_bytes_mono(self.chars@, hi + 1, lo);
                }
            }
        }
        CursorContext::AttrName { tag, partial }
    }

    /// The cursor context at `offset` when the deepest node touching it is
    /// `node` (an index into the syntax arena): walks upward to the enclosing
    /// attribute, tag name, tag, or text node.
    pub fn context_at_node(&self, node: Option<usize>, offset: usize) -> (r: CursorContext)
        ensures
            r@ == context_spec(
                self.chars_view(),
                self.nodes_view(),
                match node {
                    Some(n) => Some(n as int),
                    None => None,
                },
                offset as int,
            ),
    {
        proof {
            use_type_invariant(self);
        }
        let mut cur = match node {
            Some(n) => n,
            None => return CursorContext::Other,
        };
        if cur >= self.nodes.len() {
            return CursorContext::Other;
        }
        loop
            invariant
                cur < self.nodes@.len(),
                model_wf(self.nodes@, self.chars@),
                context_walk(self.chars@, self.nodes@, cur as int, offset as int) == context_spec(
                    self.chars_view(),
                    self.nodes_view(),
                    match node {
                        Some(n) => Some(n as int),
                        None => None,
                    },
                    offset as int,
                ),
            decreases cur,
        {
            proof {
                assert(node_wf(self.nodes@, cur as int, self.chars@));
            }
            let k = self.nodes[cur].kind;
            match k {
                NodeKind::Attribute => {
                    return self.attribute_context(cur, offset);
                },
                NodeKind::TagName => {
                    return CursorContext::TagName { partial: self.node_string(cur) };
                },
                NodeKind::StartTag | NodeKind::SelfClosingTag => {
                    // Inside a tag but not on a specific attribute or the tag
                    // name: an attribute-name completion site.
                    let tag = match self.tag_name_of(cur) {
                        Some(t) => t,
                        None => String::new(),
                    };
                    return CursorContext::AttrName { tag, partial: String::new() };
                },
                NodeKind::Text => {
                    return CursorContext::Text;
                },
                _ => {},
            }
            match self.nodes[cur].parent {
                Some(p) => {
                    cur = p;
                },
                None => {
                    return CursorContext::Other;
                },
            }
        }
    }

    /// The child of `cur` the walk towards `offset` enters, if any: the first
    /// child not ending before the offset, provided it starts at or before it.
    fn enter_child(&self, cur: usize, offset: usize) -> (r: Option<usize>)
        requires
            cur < self.nodes_view().len(),
        ensures
            (match r {
                Some(c) => Some(c as int),
                None => None,
            }) == (match self.nodes_view()[cur as int].first_child {
                Some(f) => if cur < f {
                    pick_from(self.nodes_view(), f as int, offset as int)
                } else {
                    None
                },
                None => None,
            }),
            r matches Some(c) ==> cur < c < self.nodes_view().len(),
    {
        proof {
            use_type_invariant(self);
            assert(node_wf(self.nodes@, cur as int, self.chars@));
        }
        let mut k = match self.nodes[cur].first_child {
            Some(f) => f,
            None => return None,
        };
        let ghost f = k;
        loop
            invariant
                cur < k < self.nodes@.len(),
                model_wf(self.nodes@, self.chars@),
                pick_from(self.nodes@, k as int, offset as int) == pick_from(
                    self.nodes@,
                    f as int,
                    offset as int,
                ),
                self.nodes@[cur as int].first_child == Some(f),
                cur < f,
            decreases self.nodes@.len() - k,
        {
            proof {
                assert(node_wf(self.nodes@, k as int, self.chars@));
            }
            let n = self.nodes[k];
            if skipped(n, offset) {
                match n.next_sibling {
                    Some(s) => {
                        k = s;
                    },
                    None => {
                        return None;
                    },
                }
            } else if n.start_byte <= offset {
                return Some(k);
            } else {
                return None;
            }
        }
    }

    /// The node the walk from the root towards `offset` ends on: the deepest
    /// node reached, or, with `named_only`, the deepest named one.
    fn deepest(&self, offset: usize, named_only: bool) -> (r: Option<usize>)
        ensures
            (match r {
                Some(i) => Some(i as int),
                None => None,
            }) == descend_from_root(self.nodes_view(), offset as int, named_only),
            r matches Some(i) ==> i < self.nodes_view().len(),
    {
        proof {
            use_type_invariant(self);
        }
        if self.nodes.len() == 0 {
            return None;
        }
        let mut cur: usize = 0;
        let mut last: usize = 0;
        loop
            invariant
                cur < self.nodes@.len(),
                last < self.nodes@.len(),
                descend(self.nodes@, cur as int, offset as int, named_only, last as int) == descend(
                    self.nodes@,
                    0,
                    offset as int,
                    named_only,
                    0,
                ),
            decreases self.nodes@.len() - cur,
        {
            match self.enter_child(cur, offset) {
                Some(c) => {
                    if !named_only || self.nodes[c].named {
                        last = c;
                    }
                    cur = c;
                },
                None => {
                    return Some(last);
                },
            }
        }
    }

    /// Determines the cursor context at `offset` (see [`CursorContext`]): the
    /// context of [`Document::context_at_node`] for the smallest node spanning
    /// the offset.
    pub fn context_at(&self, offset: usize) -> (r: CursorContext)
        ensures
            r@ == context_spec(
                self.chars_view(),
                self.nodes_view(),
                deepest_at(self.nodes_view(), offset as int),
                offset as int,
            ),
    {
        let found = self.deepest(ts_offset(offset), false);
        let r = self.context_at_node(found, offset);
        proof {
            let w = match found {
                Some(n) => Some(n as int),
                None => None,
            };
            assert(w == deepest_at(self.nodes_view(), offset as int));
        }
        r
    }

    /// The smallest *named* node whose byte range spans `offset`, as an index
    /// into the syntax arena.
    pub fn node_at(&self, offset: usize) -> (r: Option<usize>)
        ensures
            (match r {
                Some(i) => Some(i as int),
                None => None,
            }) == named_deepest_at(self.nodes_view(), offset as int),
            r matches Some(i) ==> i < self.nodes_view().len(),
    {
        self.deepest(ts_offset(offset), true)
    }

    /// The text a node spans, as a new string.
    fn node_string(&self, i: usize) -> (r: String)
        requires
            i < self.nodes_view().len(),
        ensures
            r@ == node_text(self.chars_view(), self.nodes_view(), i as int),
    {
        proof {
            use_type_invariant(self);
            assert(node_wf(self.nodes@, i as int, self.chars@));
        }
        let n = self.nodes[i];
        string_of(&self.chars, n.start_char, n.end_char)
    }
}

} // verus!

verus! {

/// Attributes in order of their name's start.
pub open spec fn attrs_sorted(s: Seq<AttrView>) -> bool {
    forall|i: int, j: int|
        0 <= i < j < s.len() ==> (#[trigger] s[i]).name_range.start <= (#[trigger] s[j]).name_range.start
}

proof fn lemma_insert_pos_split(s: Seq<AttrView>, x: AttrView)
    requires
        attrs_sorted(s),
    ensures
        0 <= insert_pos(s, x) <= s.len(),
        forall|i: int| 0 <= i < insert_pos(s, x) ==> (#[trigger] s[i]).name_range.start <= x.name_range.start,
        forall|i: int| insert_pos(s, x) <= i < s.len() ==> (#[trigger] s[i]).name_range.start > x.name_range.start,
    decreases s.len(),
{
    if s.len() > 0 {
        let d = s.drop_last();
        assert(attrs_sorted(d)) by {
            assert forall|i: int, j: int| 0 <= i < j < d.len() implies (#[trigger] d[i]).name_range.start
                <= (#[trigger] d[j]).name_range.start by {
                assert(d[i] == s[i] && d[j] == s[j]);
            }
        }
        lemma_insert_pos_split(d, x);
        if s.last().name_range.start <= x.name_range.start {
            assert forall|i: int| 0 <= i < insert_pos(s, x) implies (#[trigger] s[i]).name_range.start
                <= x.name_range.start by {
                if i < s.len() - 1 {
                    assert(s[i].name_range.start <= s[s.len() - 1].name_range.start);
                }
            }
        } else {
            assert forall|i: int| 0 <= i < insert_pos(s, x) implies (#[trigger] s[i]).name_range.start
                <= x.name_range.start by {
                assert(s[i] == d[i]);
            }
            assert forall|i: int| insert_pos(s, x) <= i < s.len() implies (#[trigger] s[i]).name_range.start
                > x.name_range.start by {
                if i < s.len() - 1 {
                    assert(s[i] == d[i]);
                }
            }
        }
    }
}

proof fn lemma_sort_sorted(s: Seq<AttrView>)
    ensures
        attrs_sorted(sort_by_name_start(s)),
    decreases s.len(),
{
    if s.len() > 0 {
        let sorted = sort_by_name_start(s.drop_last());
        lemma_sort_sorted(s.drop_last());
        let x = s.last();
        lemma_insert_pos_split(sorted, x);
        let p = insert_pos(sorted, x);
        let r = sorted.take(p).push(x) + sorted.skip(p);
        assert forall|i: int, j: int| 0 <= i < j < r.len() implies (#[trigger] r[i]).name_range.start
            <= (#[trigger] r[j]).name_range.start by {
            if j < p {
                assert(r[i] == sorted[i] && r[j] == sorted[j]);
            } else if j == p {
                assert(r[i] == sorted[i] && r[j] == x);
            } else if i < p {
                assert(r[i] == sorted[i] && r[j] == sorted[j - 1]);
            } else if i == p {
                assert(r[i] == x && r[j] == sorted[j - 1]);
            } else {
                assert(r[i] == sorted[i - 1] && r[j] == sorted[j - 1]);
            }
        }
    }
}

/// The byte range `r` covers exactly the characters `t` of the text.
pub open spec fn picks_out(cs: Seq<char>, r: Range<usize>, t: Seq<char>) -> bool {
    exists|s: int, e: int|
        0 <= s <= e <= cs.len() && prefix_bytes(cs, s) == r.start && prefix_bytes(cs, e) == r.end
            && #[trigger] cs.subrange(s, e) == t
}

proof fn lemma_chain_in_range(nodes: Seq<SyntaxNode>, c: int)
    ensures
        forall|k: int|
            0 <= k < sibling_chain(nodes, c).len() ==> 0 <= #[trigger] sibling_chain(nodes, c)[k]
                < nodes.len(),
    decreases nodes.len() - c,
{
    if 0 <= c < nodes.len() {
        let rest = match nodes[c].next_sibling {
            Some(x) => if c < x < nodes.len() {
                sibling_chain(nodes, x as int)
            } else {
                Seq::<int>::empty()
            },
            None => Seq::<int>::empty(),
        };
        if let Some(x) = nodes[c].next_sibling {
            if c < x < nodes.len() {
                lemma_chain_in_range(nodes, x as int);
            }
        }
        assert(sibling_chain(nodes, c) == seq![c] + rest);
        assert forall|k: int| 0 <= k < sibling_chain(nodes, c).len() implies 0 <= #[trigger] sibling_chain(nodes, c)[k]
            < nodes.len() by {
            if k > 0 {
                assert(sibling_chain(nodes, c)[k] == rest[k - 1]);
            }
        }
    }
}

proof fn lemma_attr_indices_range(nodes: Seq<SyntaxNode>, n: int)
    ensures
        forall|k: int|
            0 <= k < attr_indices(nodes, n).len() ==> 0 <= #[trigger] attr_indices(nodes, n)[k] < n,
    decreases n,
{
    if n > 0 {
        lemma_attr_indices_range(nodes, n - 1);
        assert forall|k: int| 0 <= k < attr_indices(nodes, n).len() implies 0 <= #[trigger] attr_indices(nodes, n)[k]
            < n by {
            if k < attr_indices(nodes, n - 1).len() {
                assert(attr_indices(nodes, n)[k] == attr_indices(nodes, n - 1)[k]);
            }
        }
    }
}

/// Folding children keeps a found name tied to the text its range covers.
proof fn lemma_info_name_text(cs: Seq<char>, nodes: Seq<SyntaxNode>, acc: AttrInfoView, kids: Seq<int>)
    requires
        model_wf(nodes, cs),
        forall|k: int| 0 <= k < kids.len() ==> 0 <= #[trigger] kids[k] < nodes.len(),
        acc.name.len() > 0 ==> picks_out(cs, acc.name_range, acc.name),
    ensures
        info_over(cs, nodes, acc, kids).name.len() > 0 ==> picks_out(
            cs,
            info_over(cs, nodes, acc, kids).name_range,
            info_over(cs, nodes, acc, kids).name,
        ),
    decreases kids.len(),
{
    if kids.len() > 0 {
        lemma_info_name_text(cs, nodes, acc, kids.drop_last());
        let c = kids.last();
        assert(0 <= c < nodes.len());
        if nodes[c].kind == NodeKind::AttributeName {
            assert(node_wf(nodes, c, cs));
            let n = nodes[c];
            assert(cs.subrange(n.start_char as int, n.end_char as int) == node_text(cs, nodes, c));
        }
    }
}

/// Byte offset `b` is a character boundary of the text.
pub open spec fn on_boundary(cs: Seq<char>, b: int) -> bool {
    exists|e: int| 0 <= e <= cs.len() && #[trigger] prefix_bytes(cs, e) == b
}

/// The range just inside the quotes of a quoted value node that holds no
/// value.
pub open spec fn empty_quotes_interior(nodes: Seq<SyntaxNode>, r: Range<usize>) -> bool {
    exists|c: int|
        0 <= c < nodes.len() && nodes[c].kind == NodeKind::QuotedAttributeValue && r
            == #[trigger] inside_quotes(byte_range_of(nodes[c]))
}

/// What the fold keeps true of a value: it is empty while no range was
/// found, and otherwise its range picks it out, or is the inside of empty
/// quotes.
pub open spec fn value_tied(cs: Seq<char>, nodes: Seq<SyntaxNode>, acc: AttrInfoView) -> bool {
    &&& on_boundary(cs, acc.name_range.end as int)
    &&& (acc.value_range is None ==> acc.value.len() == 0)
    &&& (acc.value_range matches Some(r) ==> picks_out(cs, r, acc.value) || empty_quotes_interior(nodes, r))
}

proof fn lemma_info_value_text(cs: Seq<char>, nodes: Seq<SyntaxNode>, acc: AttrInfoView, kids: Seq<int>)
    requires
        model_wf(nodes, cs),
        forall|k: int| 0 <= k < kids.len() ==> 0 <= #[trigger] kids[k] < nodes.len(),
        value_tied(cs, nodes, acc),
    ensures
        value_tied(cs, nodes, info_over(cs, nodes, acc, kids)),
    decreases kids.len(),
{
    if kids.len() > 0 {
        lemma_info_value_text(cs, nodes, acc, kids.drop_last());
        let prev = info_over(cs, nodes, acc, kids.drop_last());
        let c = kids.last();
        assert(0 <= c < nodes.len());
        assert(node_wf(nodes, c, cs));
        let n = nodes[c];
        if n.kind == NodeKind::AttributeName {
            assert(prefix_bytes(cs, n.end_char as int) == n.end_byte);
        } else if n.kind == NodeKind::AttributeValue {
            assert(cs.subrange(n.start_char as int, n.end_char as int) == node_text(cs, nodes, c));
        } else if n.kind == NodeKind::QuotedAttributeValue {
            match first_of_kinds(nodes, children(nodes, c), NodeKind::AttributeValue, NodeKind::AttributeValue) {
                Some(inner) => {
                    match nodes[c].first_child {
                        Some(f) => lemma_chain_in_range(nodes, f as int),
                        None => {},
                    }
                    lemma_first_of_kinds_member(nodes, children(nodes, c), NodeKind::AttributeValue, NodeKind::AttributeValue);
                    assert(0 <= inner < nodes.len());
                    assert(node_wf(nodes, inner, cs));
                    let m = nodes[inner];
                    assert(cs.subrange(m.start_char as int, m.end_char as int) == node_text(cs, nodes, inner));
                },
                None => {
                    assert(empty_quotes_interior(nodes, inside_quotes(byte_range_of(nodes[c]))));
                },
            }
        }
    }
}

proof fn lemma_first_of_kinds_member(nodes: Seq<SyntaxNode>, kids: Seq<int>, k1: NodeKind, k2: NodeKind)
    ensures
        first_of_kinds(nodes, kids, k1, k2) matches Some(x) ==> kids.contains(x),
    decreases kids.len(),
{
    if kids.len() > 0 && !(nodes[kids[0]].kind == k1 || nodes[kids[0]].kind == k2) {
        lemma_first_of_kinds_member(nodes, kids.drop_first(), k1, k2);
        if let Some(x) = first_of_kinds(nodes, kids.drop_first(), k1, k2) {
            let j = choose|j: int| 0 <= j < kids.drop_first().len() && kids.drop_first()[j] == x;
            assert(kids[j + 1] == x);
        }
    } else if kids.len() > 0 {
        assert(kids.contains(kids[0]));
    }
}

proof fn lemma_sort_members(s: Seq<AttrView>)
    ensures
        sort_by_name_start(s).len() == s.len(),
        forall|i: int| 0 <= i < s.len() ==> s.contains(#[trigger] sort_by_name_start(s)[i]),
    decreases s.len(),
{
    lemma_sort_len(s);
    if s.len() > 0 {
        let s1 = s.drop_last();
        lemma_sort_members(s1);
        let sorted = sort_by_name_start(s1);
        let x = s.last();
        lemma_insert_pos_range(sorted, x);
        let p = insert_pos(sorted, x);
        let r = sorted.take(p).push(x) + sorted.skip(p);
        assert forall|i: int| 0 <= i < s.len() implies s.contains(#[trigger] sort_by_name_start(s)[i]) by {
            if i < p {
                assert(r[i] == sorted[i]);
                let j = choose|j: int| 0 <= j < s1.len() && s1[j] == sorted[i];
                assert(s[j] == s1[j]);
            } else if i == p {
                assert(r[i] == x);
                assert(s[s.len() - 1] == x);
            } else {
                assert(r[i] == sorted[i - 1]);
                let j = choose|j: int| 0 <= j < s1.len() && s1[j] == sorted[i - 1];
                assert(s[j] == s1[j]);
            }
        }
    }
}

/// The ranges of every attribute pick out its name and value in the text:
/// the name range covers the name (whenever a name was found), and the value
/// range covers the value, unless it is the inside of empty quotes.
pub proof fn law_attribute_ranges_in_text(cs: Seq<char>, nodes: Seq<SyntaxNode>)
    requires
        model_wf(nodes, cs),
    ensures
        forall|i: int|
            0 <= i < attributes_spec(cs, nodes).len() && (#[trigger] attributes_spec(cs, nodes)[i]).name.len() > 0
                ==> picks_out(cs, attributes_spec(cs, nodes)[i].name_range, attributes_spec(cs, nodes)[i].name),
        forall|i: int|
            0 <= i < attributes_spec(cs, nodes).len() ==> picks_out(
                cs,
                (#[trigger] attributes_spec(cs, nodes)[i]).value_range,
                attributes_spec(cs, nodes)[i].value,
            ) || empty_quotes_interior(nodes, attributes_spec(cs, nodes)[i].value_range),
{
    let idx = attr_indices(nodes, nodes.len() as int);
    let occ = idx.map_values(|a: int| occurrence_spec(cs, nodes, a));
    lemma_attr_indices_range(nodes, nodes.len() as int);
    lemma_sort_members(occ);
    assert forall|i: int| 0 <= i < attributes_spec(cs, nodes).len() implies {
        let v = #[trigger] attributes_spec(cs, nodes)[i];
        &&& (v.name.len() > 0 ==> picks_out(cs, v.name_range, v.name))
        &&& (picks_out(cs, v.value_range, v.value) || empty_quotes_interior(nodes, v.value_range))
    } by {
        let j = choose|j: int| 0 <= j < occ.len() && occ[j] == attributes_spec(cs, nodes)[i];
        let a = idx[j];
        assert(0 <= a < nodes.len());
        let init = AttrInfoView {
            name: Seq::<char>::empty(),
            name_range: byte_range_of(nodes[a]),
            value: Seq::<char>::empty(),
            value_range: None,
            value_span: None,
        };
        match nodes[a].first_child {
            Some(c) => lemma_chain_in_range(nodes, c as int),
            None => {},
        }
        assert(node_wf(nodes, a, cs));
        assert(prefix_bytes(cs, nodes[a].end_char as int) == nodes[a].end_byte);
        assert(value_tied(cs, nodes, init));
        lemma_info_name_text(cs, nodes, init, children(nodes, a));
        lemma_info_value_text(cs, nodes, init, children(nodes, a));
        let info = attr_info_spec(cs, nodes, a);
        if info.value_range is None {
            let e = choose|e: int| 0 <= e <= cs.len() && #[trigger] prefix_bytes(cs, e) == info.name_range.end as int;
            assert(cs.subrange(e, e) =~= info.value);
        }
    }
}

/// The attributes of a document come out in the order of their names in
/// the text.
pub proof fn law_attributes_sorted(cs: Seq<char>, nodes: Seq<SyntaxNode>)
    ensures
        attrs_sorted(attributes_spec(cs, nodes)),
{
    lemma_sort_sorted(attr_indices(nodes, nodes.len() as int).map_values(|a: int| occurrence_spec(cs, nodes, a)));
}

} // verus!
