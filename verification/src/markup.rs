//! HTML documents as plain values, read by the `scraper` crate.

use vstd::prelude::*;

verus! {

/// The texts that a vector of strings holds, in order.
pub open spec fn strings(v: Seq<String>) -> Seq<Seq<char>> {
    v.map_values(|s: String| s@)
}

/// What a node of a document is.
pub enum MarkupKind {
    /// A text node, with its text.
    Text(String),
    /// An element, with its name and the value of the attribute that was
    /// asked for, where the element has it.
    Element(String, Option<String>),
    /// Anything else: the document itself, a doctype, a comment, a
    /// processing instruction.
    Other,
}

/// One node of a document.
pub struct MarkupNode {
    /// What stands around the node, from its parent outwards: the name of
    /// each element, nothing for what is no element.
    pub around: Vec<Option<String>>,
    /// What the node is.
    pub kind: MarkupKind,
}

/// The mathematical form of [`MarkupKind`].
pub enum MarkupKindView {
    Text(Seq<char>),
    Element(Seq<char>, Option<Seq<char>>),
    Other,
}

/// The mathematical form of [`MarkupNode`].
pub struct MarkupNodeView {
    pub around: Seq<Option<Seq<char>>>,
    pub kind: MarkupKindView,
}

/// The text of an optional string.
pub open spec fn optional_text(s: Option<String>) -> Option<Seq<char>> {
    match s {
        Some(text) => Some(text@),
        None => None,
    }
}

impl View for MarkupKind {
    type V = MarkupKindView;

    open spec fn view(&self) -> MarkupKindView {
        match *self {
            MarkupKind::Text(text) => MarkupKindView::Text(text@),
            MarkupKind::Element(name, value) => MarkupKindView::Element(
                name@,
                optional_text(value),
            ),
            MarkupKind::Other => MarkupKindView::Other,
        }
    }
}

impl View for MarkupNode {
    type V = MarkupNodeView;

    open spec fn view(&self) -> MarkupNodeView {
        MarkupNodeView {
            around: self.around@.map_values(|name: Option<String>| optional_text(name)),
            kind: self.kind@,
        }
    }
}

/// The nodes that a vector of nodes holds, in order.
pub open spec fn nodes_of(v: Seq<MarkupNode>) -> Seq<MarkupNodeView> {
    v.map_values(|node: MarkupNode| node@)
}

/// The nodes of the tree that `scraper::Html::parse_document` makes of
/// `document`, in the order in which `ego_tree::NodeRef::descendants` walks
/// them from the root: every node before its children, the children in their
/// order. Each node comes with what `ego_tree::NodeRef::ancestors` yields for
/// it, and an element with what `scraper::node::Element::attr` gives for
/// `attribute`.
pub uninterp spec fn document_nodes(document: Seq<char>, attribute: Seq<char>) -> Seq<
    MarkupNodeView,
>;

/// Calls `scraper::Html::parse_document`, walks the tree with
/// `ego_tree::NodeRef::descendants`, and converts each node: its ancestors
/// by `ego_tree::NodeRef::ancestors` and `scraper::node::Element::name`, its
/// text, or its name and `scraper::node::Element::attr` of `attribute`.
/// Trusted: the outcome depends on the characters of the two arguments alone.
#[verifier::external_body]
pub(crate) fn read_document(document: &str, attribute: &str) -> (out: Vec<MarkupNode>)
    ensures
        nodes_of(out@) == document_nodes(document@, attribute@),
{
    let html = scraper::Html::parse_document(document);
    html.tree.root().descendants().map(|node| MarkupNode {
        around: node.ancestors().map(|a| a.value().as_element().map(|e| e.name().to_string())).collect(),
        kind: match node.value() {
            scraper::Node::Text(text) => MarkupKind::Text(String::from(&**text)),
            scraper::Node::Element(e) => MarkupKind::Element(e.name().to_string(), e.attr(attribute).map(String::from)),
            _ => MarkupKind::Other,
        },
    }).collect()
}

} // verus!
