//! The HTML syntax tree of a document.
//!
//! Parsing is done by tree-sitter with the HTML grammar. The tree is then read
//! once, in pre-order, into a plain [`SyntaxNode`] arena that the rest of the
//! crate works on: every node's kind, byte and character range, rows, and its
//! parent / first-child / next-sibling links.

use tree_sitter::{Language, Node, Parser, Tree};
use vstd::prelude::*;
use crate::document::newline_count;
use crate::text::{chars_eq, chars_of, floor_char, prefix_bytes};

verus! {

#[verifier::external_type_specification]
#[verifier::external_body]
pub struct ExTree(Tree);

#[verifier::external_type_specification]
#[verifier::external_body]
pub struct ExNode<'a>(Node<'a>);

#[verifier::external_type_specification]
#[verifier::external_body]
pub struct ExParser(Parser);

#[verifier::external_type_specification]
#[verifier::external_body]
pub struct ExLanguage(Language);

/// `tree_sitter_html::language`: the HTML grammar.
#[verifier::external_body]
fn html_language() -> Language {
    tree_sitter_html::language()
}

/// `Parser::new`: a parser with no language assigned.
#[verifier::external_body]
fn parser_new() -> Parser {
    Parser::new()
}

/// `Parser::set_language`: `true` when the grammar was accepted.
#[verifier::external_body]
fn parser_set_language(parser: &mut Parser, language: &Language) -> bool {
    parser.set_language(language).is_ok()
}

/// `Parser::parse` of the whole text with no previous tree.
#[verifier::external_body]
fn parser_parse(parser: &mut Parser, text: &str) -> Option<Tree> {
    parser.parse(text, None)
}

/// `Tree::root_node`.
#[verifier::external_body]
fn tree_root<'a>(tree: &'a Tree) -> Node<'a> {
    tree.root_node()
}

/// `Node::descendant_count`: the node itself plus all its descendants, so at
/// least one.
#[verifier::external_body]
fn node_descendant_count<'a>(node: &Node<'a>) -> (r: usize)
    ensures
        r >= 1,
{
    node.descendant_count()
}

/// `Node::child_count`.
#[verifier::external_body]
fn node_child_count<'a>(node: &Node<'a>) -> u32 {
    node.child_count()
}

/// `Node::child`.
#[verifier::external_body]
fn node_child<'a>(node: &Node<'a>, i: u32) -> Option<Node<'a>> {
    node.child(i)
}


/// `Node::kind`: the grammar's name for the node type.
#[verifier::external_body]
fn node_kind<'a>(node: &Node<'a>) -> &'a str {
    node.kind()
}

/// `Node::start_byte`.
#[verifier::external_body]
fn node_start_byte<'a>(node: &Node<'a>) -> usize {
    node.start_byte()
}

/// `Node::end_byte`.
#[verifier::external_body]
fn node_end_byte<'a>(node: &Node<'a>) -> usize {
    node.end_byte()
}

/// `Node::is_named`: whether the node is a named rule of the grammar rather
/// than an anonymous token.
#[verifier::external_body]
fn node_is_named<'a>(node: &Node<'a>) -> bool {
    node.is_named()
}

/// The node types the features distinguish.
#[derive(Debug, Clone, Copy, PartialEq, Eq, Structural)]
pub enum NodeKind {
    Attribute,
    AttributeName,
    AttributeValue,
    QuotedAttributeValue,
    TagName,
    StartTag,
    SelfClosingTag,
    Element,
    ScriptElement,
    StyleElement,
    Comment,
    Text,
    Other,
}

/// The [`NodeKind`] of a tree-sitter node type name.
pub open spec fn kind_of(name: Seq<char>) -> NodeKind {
    if name == "attribute"@ {
        NodeKind::Attribute
    } else if name == "attribute_name"@ {
        NodeKind::AttributeName
    } else if name == "attribute_value"@ {
        NodeKind::AttributeValue
    } else if name == "quoted_attribute_value"@ {
        NodeKind::QuotedAttributeValue
    } else if name == "tag_name"@ {
        NodeKind::TagName
    } else if name == "start_tag"@ {
        NodeKind::StartTag
    } else if name == "self_closing_tag"@ {
        NodeKind::SelfClosingTag
    } else if name == "element"@ {
        NodeKind::Element
    } else if name == "script_element"@ {
        NodeKind::ScriptElement
    } else if name == "style_element"@ {
        NodeKind::StyleElement
    } else if name == "comment"@ {
        NodeKind::Comment
    } else if name == "text"@ {
        NodeKind::Text
    } else {
        NodeKind::Other
    }
}

fn classify(name: &str) -> (r: NodeKind)
    ensures
        r == kind_of(name@),
{
    let n = chars_of(name);
    if chars_eq(&n, &chars_of("attribute")) {
        NodeKind::Attribute
    } else if chars_eq(&n, &chars_of("attribute_name")) {
        NodeKind::AttributeName
    } else if chars_eq(&n, &chars_of("attribute_value")) {
        NodeKind::AttributeValue
    } else if chars_eq(&n, &chars_of("quoted_attribute_value")) {
        NodeKind::QuotedAttributeValue
    } else if chars_eq(&n, &chars_of("tag_name")) {
        NodeKind::TagName
    } else if chars_eq(&n, &chars_of("start_tag")) {
        NodeKind::StartTag
    } else if chars_eq(&n, &chars_of("self_closing_tag")) {
        NodeKind::SelfClosingTag
    } else if chars_eq(&n, &chars_of("element")) {
        NodeKind::Element
    } else if chars_eq(&n, &chars_of("script_element")) {
        NodeKind::ScriptElement
    } else if chars_eq(&n, &chars_of("style_element")) {
        NodeKind::StyleElement
    } else if chars_eq(&n, &chars_of("comment")) {
        NodeKind::Comment
    } else if chars_eq(&n, &chars_of("text")) {
        NodeKind::Text
    } else {
        NodeKind::Other
    }
}

/// One node of the syntax tree, in a pre-order arena.
#[derive(Debug, Clone, Copy)]
pub struct SyntaxNode {
    pub kind: NodeKind,
    /// Byte range in the document text.
    pub start_byte: usize,
    pub end_byte: usize,
    /// The same range as character indices.
    pub start_char: usize,
    pub end_char: usize,
    /// 0-based rows of the first and last character.
    pub start_row: usize,
    pub end_row: usize,
    pub parent: Option<usize>,
    pub first_child: Option<usize>,
    pub next_sibling: Option<usize>,
    /// Whether the grammar names the node (anonymous tokens are not named).
    pub named: bool,
}

/// Node `i` of the arena is consistent with the text `cs`: its range lies on
/// character boundaries, its rows are the lines of its ends, its parent comes
/// before it, and its first child and next sibling come after it.
pub open spec fn node_wf(nodes: Seq<SyntaxNode>, i: int, cs: Seq<char>) -> bool {
    let n = nodes[i];
    &&& n.start_char <= n.end_char <= cs.len()
    &&& n.start_byte == prefix_bytes(cs, n.start_char as int)
    &&& n.end_byte == prefix_bytes(cs, n.end_char as int)
    &&& n.start_row == newline_count(cs.take(n.start_char as int))
    &&& n.end_row == newline_count(cs.take(n.end_char as int))
    &&& (n.parent matches Some(p) ==> 0 <= p < i)
    &&& (n.first_child matches Some(c) ==> i < c < nodes.len())
    &&& (n.next_sibling matches Some(s) ==> i < s < nodes.len())
}

pub open spec fn model_wf(nodes: Seq<SyntaxNode>, cs: Seq<char>) -> bool {
    forall|i: int| 0 <= i < nodes.len() ==> #[trigger] node_wf(nodes, i, cs)
}

/// The arena has the shape of a tree read from its root: the root comes
/// first and has no parent, every other node has one, a node's first child
/// names it as parent, and siblings share their parent.
pub open spec fn tree_shape(nodes: Seq<SyntaxNode>) -> bool {
    &&& nodes.len() > 0 ==> nodes[0].parent is None
    &&& forall|i: int| 0 < i < nodes.len() ==> (#[trigger] nodes[i]).parent is Some
    &&& forall|i: int|
        0 <= i < nodes.len() ==> (#[trigger] nodes[i].first_child matches Some(c) ==> 0 <= c
            < nodes.len() && nodes[c as int].parent == Some(i as usize))
    &&& forall|i: int|
        0 <= i < nodes.len() ==> (#[trigger] nodes[i].next_sibling matches Some(s) ==> 0 <= s
            < nodes.len() && nodes[s as int].parent == nodes[i].parent)
}

/// Parses `text` as HTML: `None` when the parser refuses the grammar or
/// returns no tree.
pub(crate) fn parse_html(text: &str) -> Option<Tree> {
    let language = html_language();
    let mut parser = parser_new();
    if !parser_set_language(&mut parser, &language) {
        return None;
    }
    parser_parse(&mut parser, text)
}

/// Reads `tree` into a pre-order arena, with every range snapped down to the
/// character boundaries of `cs` (whose start offsets are `starts`, and the
/// lines they begin on `lines`).
pub fn read_tree(tree: &Tree, cs: &Vec<char>, starts: &Vec<usize>, lines: &Vec<usize>) -> (r: Vec<
    SyntaxNode,
>)
    requires
        starts@.len() == cs@.len() + 1,
        forall|i: int| 0 <= i <= cs@.len() ==> #[trigger] starts@[i] == prefix_bytes(cs@, i),
        lines@.len() == cs@.len() + 1,
        forall|i: int| 0 <= i <= cs@.len() ==> #[trigger] lines@[i] == newline_count(cs@.take(i)),
    ensures
        model_wf(r@, cs@),
        tree_shape(r@),
        r@.len() >= 1,
{
    let root = tree_root(tree);
    let budget = node_descendant_count(&root);
    let total = starts[cs.len()];
    let mut nodes: Vec<SyntaxNode> = Vec::new();
    let mut last_child: Vec<Option<usize>> = Vec::new();
    let mut stack: Vec<(Node, Option<usize>)> = Vec::new();
    stack.push((root, None));
    while stack.len() > 0 && nodes.len() < budget
        invariant
            starts@.len() == cs@.len() + 1,
            forall|i: int| 0 <= i <= cs@.len() ==> #[trigger] starts@[i] == prefix_bytes(cs@, i),
            lines@.len() == cs@.len() + 1,
            forall|i: int| 0 <= i <= cs@.len() ==> #[trigger] lines@[i] == newline_count(cs@.take(i)),
            total == prefix_bytes(cs@, cs@.len() as int),
            model_wf(nodes@, cs@),
            last_child@.len() == nodes@.len(),
            forall|p: int|
                0 <= p < last_child@.len() ==> (#[trigger] last_child@[p] matches Some(q) ==> p < q
                    < nodes@.len()),
            forall|e: int|
                0 <= e < stack@.len() ==> (#[trigger] stack@[e].1 matches Some(p) ==> 0 <= p
                    < nodes@.len()),
            budget >= 1,
            tree_shape(nodes@),
            forall|p: int|
                0 <= p < last_child@.len() ==> (#[trigger] last_child@[p] matches Some(q) ==> q
                    < nodes@.len() && nodes@[q as int].parent == Some(p as usize)),
            nodes@.len() == 0 ==> stack@.len() == 1 && stack@[0].1 is None,
            nodes@.len() > 0 ==> forall|e: int| 0 <= e < stack@.len() ==> (#[trigger] stack@[e].1) is Some,
        ensures
            model_wf(nodes@, cs@),
            tree_shape(nodes@),
            nodes@.len() >= 1,
        decreases budget - nodes@.len(),
    {
        let (node, parent) = match stack.pop() {
            Some(e) => e,
            None => break,
        };
        let idx = nodes.len();
        let kind = classify(node_kind(&node));
        let sb = node_start_byte(&node);
        let eb = node_end_byte(&node);
        let sc = floor_char(cs, starts, if sb <= total { sb } else { total });
        let ec0 = floor_char(cs, starts, if eb <= total { eb } else { total });
        let ec = if ec0 < sc { sc } else { ec0 };
        let sn = SyntaxNode {
            kind,
            start_byte: starts[sc],
            end_byte: starts[ec],
            start_char: sc,
            end_char: ec,
            start_row: lines[sc],
            end_row: lines[ec],
            parent,
            first_child: None,
            next_sibling: None,
            named: node_is_named(&node),
        };
        let ghost before_push = nodes@;
        nodes.push(sn);
        last_child.push(None);
        proof {
            assert(node_wf(nodes@, idx as int, cs@));
            assert forall|i: int| 0 <= i < nodes@.len() implies #[trigger] node_wf(nodes@, i, cs@) by {
                if i < idx {
                    assert(node_wf(before_push, i, cs@));
                    assert(nodes@[i] == before_push[i]);
                }
            }
        }
        if let Some(p) = parent {
            let ghost before_set = nodes@;
            let ghost lc = last_child[p as int];
            match last_child[p] {
                Some(q) => {
                    let mut prev = nodes[q];
                    prev.next_sibling = Some(idx);
                    nodes.set(q, prev);
                },
                None => {
                    let mut par = nodes[p];
                    par.first_child = Some(idx);
                    nodes.set(p, par);
                },
            }
            last_child.set(p, Some(idx));
            proof {
                assert forall|i: int| 0 <= i < nodes@.len() implies #[trigger] node_wf(nodes@, i, cs@) by {
                    assert(node_wf(before_set, i, cs@));
                    if lc is Some {
                        if i != lc->0 {
                            assert(nodes@[i] == before_set[i]);
                        }
                    } else {
                        if i != p {
                            assert(nodes@[i] == before_set[i]);
                        }
                    }
                }
            }
        }
        let count = node_child_count(&node);
        let mut i = count;
        while i > 0
            invariant
                idx < nodes@.len(),
                forall|e: int|
                    0 <= e < stack@.len() ==> (#[trigger] stack@[e].1 matches Some(p) ==> 0 <= p
                        < nodes@.len()),
                forall|e: int| 0 <= e < stack@.len() ==> (#[trigger] stack@[e].1) is Some,
            decreases i,
        {
            i -= 1;
            if let Some(child) = node_child(&node, i) {
                stack.push((child, Some(idx)));
            }
        }
    }
    nodes
}

} // verus!
