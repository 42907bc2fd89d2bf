//! Folding ranges over the HTML syntax tree.
//!
//! Every multi-line `element`, `script_element`, `style_element` and `comment`
//! yields a fold. A fold runs from the node's first line down to the line
//! *before* its last line, so the closing tag stays visible when the block is
//! collapsed; when that would make the fold end on its first line, it ends on
//! the last line instead.

use vstd::prelude::*;
use crate::document::Document;
use crate::syntax::{NodeKind, SyntaxNode};

verus! {

/// What a fold covers.
#[derive(Debug, Clone, Copy, PartialEq, Eq, Structural)]
pub enum FoldingRangeKind {
    Comment,
    Region,
}

/// A foldable line span (0-based lines).
#[derive(Debug, Clone, Copy, PartialEq, Eq, Structural)]
pub struct FoldingRange {
    pub start_line: u32,
    pub end_line: u32,
    pub kind: FoldingRangeKind,
}

/// Whether a node kind folds as a region.
pub open spec fn is_region_kind(k: NodeKind) -> bool {
    k == NodeKind::Element || k == NodeKind::ScriptElement || k == NodeKind::StyleElement
}

/// The fold a node offers, if any.
pub open spec fn fold_of(n: SyntaxNode) -> Option<FoldingRange> {
    let is_comment = n.kind == NodeKind::Comment;
    if is_comment || is_region_kind(n.kind) {
        let s = n.start_row as u32;
        let e = n.end_row as u32;
        if e > s {
            let f = (e - 1) as u32;
            Some(
                FoldingRange {
                    start_line: s,
                    end_line: if f > s {
                        f
                    } else {
                        e
                    },
                    kind: if is_comment {
                        FoldingRangeKind::Comment
                    } else {
                        FoldingRangeKind::Region
                    },
                },
            )
        } else {
            None
        }
    } else {
        None
    }
}

/// The folds of the first `k` nodes in tree (pre-order) order, each kept only
/// at its first occurrence.
pub open spec fn folds_over(nodes: Seq<SyntaxNode>, k: int) -> Seq<FoldingRange>
    decreases k,
{
    if k <= 0 {
        Seq::<FoldingRange>::empty()
    } else {
        let prev = folds_over(nodes, k - 1);
        match fold_of(nodes[k - 1]) {
            Some(r) => if prev.contains(r) {
                prev
            } else {
                prev.push(r)
            },
            None => prev,
        }
    }
}

/// Every fold spans more than one line.
pub open spec fn folds_span_lines(s: Seq<FoldingRange>) -> bool {
    forall|i: int| 0 <= i < s.len() ==> #[trigger] s[i].start_line < s[i].end_line
}

/// No fold occurs twice.
pub open spec fn folds_distinct(s: Seq<FoldingRange>) -> bool {
    forall|i: int, j: int| 0 <= i < j < s.len() ==> #[trigger] s[i] != #[trigger] s[j]
}

/// The fold of a node, computed.
fn node_fold(n: &SyntaxNode) -> (r: Option<FoldingRange>)
    ensures
        r == fold_of(*n),
{
    let is_comment = n.kind == NodeKind::Comment;
    let is_region = n.kind == NodeKind::Element || n.kind == NodeKind::ScriptElement || n.kind
        == NodeKind::StyleElement;
    if !(is_comment || is_region) {
        return None;
    }
    #[verifier::truncate]
    let start_line = n.start_row as u32;
    #[verifier::truncate]
    let end_line = n.end_row as u32;
    if end_line > start_line {
        let f = end_line - 1;
        let fold_end = if f > start_line {
            f
        } else {
            end_line
        };
        Some(
            FoldingRange {
                start_line,
                end_line: fold_end,
                kind: if is_comment {
                    FoldingRangeKind::Comment
                } else {
                    FoldingRangeKind::Region
                },
            },
        )
    } else {
        None
    }
}

/// Whether `r` already occurs in `out`.
fn contains_fold(out: &Vec<FoldingRange>, r: FoldingRange) -> (b: bool)
    ensures
        b == out@.contains(r),
{
    let mut i: usize = 0;
    while i < out.len()
        invariant
            i <= out@.len(),
            forall|k: int| 0 <= k < i ==> out@[k] != r,
        decreases out@.len() - i,
    {
        if out[i] == r {
            return true;
        }
        i += 1;
    }
    false
}

/// The folding ranges of `doc`, in tree order and without repetitions.
pub fn folding_ranges(doc: &Document) -> (r: Vec<FoldingRange>)
    ensures
        r@ == folds_over(doc.nodes_view(), doc.nodes_view().len() as int),
        folds_span_lines(r@),
        folds_distinct(r@),
{
    let (_, _, nodes) = doc.parts();
    let mut out: Vec<FoldingRange> = Vec::new();
    let mut i: usize = 0;
    while i < nodes.len()
        invariant
            i <= nodes@.len(),
            nodes@ == doc.nodes_view(),
            out@ == folds_over(nodes@, i as int),
            folds_span_lines(out@),
            folds_distinct(out@),
        decreases nodes@.len() - i,
    {
        match node_fold(&nodes[i]) {
            Some(f) => {
                if !contains_fold(&out, f) {
                    out.push(f);
                }
            },
            None => {},
        }
        i += 1;
    }
    out
}

} // verus!

verus! {

proof fn lemma_folds_grow(nodes: Seq<SyntaxNode>, k: int, r: FoldingRange)
    requires
        0 <= k,
        folds_over(nodes, k).contains(r),
    ensures
        folds_over(nodes, k + 1).contains(r),
{
    let prev = folds_over(nodes, k);
    let j = choose|j: int| 0 <= j < prev.len() && prev[j] == r;
    match fold_of(nodes[k]) {
        Some(f) => if !prev.contains(f) {
            assert(prev.push(f)[j] == r);
        },
        None => {},
    }
}

proof fn lemma_folds_keep(nodes: Seq<SyntaxNode>, k: int, m: int, r: FoldingRange)
    requires
        0 <= k <= m,
        folds_over(nodes, k).contains(r),
    ensures
        folds_over(nodes, m).contains(r),
    decreases m - k,
{
    if k < m {
        lemma_folds_grow(nodes, k, r);
        lemma_folds_keep(nodes, k + 1, m, r);
    }
}

/// Every multi-line element, script, style or comment is folded: its fold is
/// among the folding ranges of the document.
pub proof fn law_every_multiline_node_folds(nodes: Seq<SyntaxNode>, i: int)
    requires
        0 <= i < nodes.len(),
        fold_of(nodes[i]) is Some,
    ensures
        folds_over(nodes, nodes.len() as int).contains(fold_of(nodes[i])->0),
{
    let f = fold_of(nodes[i])->0;
    let prev = folds_over(nodes, i);
    if prev.contains(f) {
        assert(folds_over(nodes, i + 1) == prev);
    } else {
        let r = prev.push(f);
        assert(r[r.len() - 1] == f);
    }
    lemma_folds_keep(nodes, i + 1, nodes.len() as int, f);
}

/// Every fold comes from a node: the fold that some element, script, style
/// or comment offers.
pub proof fn law_every_fold_has_a_node(nodes: Seq<SyntaxNode>, k: int)
    requires
        0 <= k <= nodes.len(),
    ensures
        forall|j: int|
            0 <= j < folds_over(nodes, k).len() ==> exists|i: int|
                0 <= i < k && #[trigger] fold_of(nodes[i]) == Some(#[trigger] folds_over(nodes, k)[j]),
    decreases k,
{
    if k > 0 {
        law_every_fold_has_a_node(nodes, k - 1);
        let prev = folds_over(nodes, k - 1);
        let cur = folds_over(nodes, k);
        assert forall|j: int| 0 <= j < cur.len() implies exists|i: int|
            0 <= i < k && #[trigger] fold_of(nodes[i]) == Some(#[trigger] cur[j]) by {
            if j < prev.len() {
                assert(cur[j] == prev[j]);
                let i = choose|i: int| 0 <= i < k - 1 && #[trigger] fold_of(nodes[i]) == Some(prev[j]);
                assert(fold_of(nodes[i]) == Some(cur[j]));
            } else {
                assert(fold_of(nodes[k - 1]) == Some(cur[j]));
            }
        }
    }
}

} // verus!
