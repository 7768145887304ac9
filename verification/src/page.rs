//! What a crawler reads from a page: the texts that a reader sees, and the
//! links.

use crate::markup::{
    document_nodes, nodes_of, read_document, strings, MarkupKind, MarkupKindView, MarkupNode,
    MarkupNodeView,
};
use vstd::prelude::*;

verus! {

/// The element below which the text of a page lies.
pub const TEXT_ROOT: &'static str = "body";

/// The element that holds a link.
pub const LINK_ELEMENT: &'static str = "a";

/// The attribute that holds a link.
pub const LINK_ATTRIBUTE: &'static str = "href";

/// Whether the node stands in an element of the given name, at any depth.
pub open spec fn stands_in(node: MarkupNodeView, name: Seq<char>) -> bool {
    node.around.contains(Some(name))
}

/// Whether the node is text that a reader sees: a text node below `body`
/// that stands in no `script`, `style` or `noscript` element.
pub open spec fn is_visible_text(node: MarkupNodeView) -> bool {
    &&& node.kind is Text
    &&& stands_in(node, TEXT_ROOT@)
    &&& !stands_in(node, "script"@)
    &&& !stands_in(node, "style"@)
    &&& !stands_in(node, "noscript"@)
}

/// The visible texts among the nodes, each text node once, in order.
pub open spec fn visible_texts(nodes: Seq<MarkupNodeView>) -> Seq<Seq<char>>
    decreases nodes.len(),
{
    if nodes.len() == 0 {
        Seq::empty()
    } else {
        let before = visible_texts(nodes.drop_last());
        if is_visible_text(nodes.last()) {
            before.push(nodes.last().kind->Text_0)
        } else {
            before
        }
    }
}

/// The link that a node holds: the value of the link attribute of a link
/// element that has one.
pub open spec fn link_of(node: MarkupNodeView) -> Option<Seq<char>> {
    match node.kind {
        MarkupKindView::Element(name, value) => if name == LINK_ELEMENT@ {
            value
        } else {
            None
        },
        _ => None,
    }
}

/// The links among the nodes, in order.
pub open spec fn links(nodes: Seq<MarkupNodeView>) -> Seq<Seq<char>>
    decreases nodes.len(),
{
    if nodes.len() == 0 {
        Seq::empty()
    } else {
        let before = links(nodes.drop_last());
        match link_of(nodes.last()) {
            Some(href) => before.push(href),
            None => before,
        }
    }
}

/// The nodes of a page, each element with its link attribute.
pub open spec fn page_nodes(page: Seq<char>) -> Seq<MarkupNodeView> {
    document_nodes(page, LINK_ATTRIBUTE@)
}

/// Reads a page into its nodes.
pub fn read_page(page: &str) -> (out: Vec<MarkupNode>)
    ensures
        nodes_of(out@) == page_nodes(page@),
{
    read_document(page, LINK_ATTRIBUTE)
}

/// Whether the node stands in an element of the name `name`.
pub fn node_stands_in(node: &MarkupNode, name: &String) -> (out: bool)
    ensures
        out == stands_in(node@, name@),
{
    let mut i: usize = 0;
    while i < node.around.len()
        invariant
            i <= node.around.len(),
            forall|j: int| 0 <= j < i ==> node@.around[j] != Some(name@),
        decreases node.around.len() - i,
    {
        match &node.around[i] {
            Some(found) => {
                if *found == *name {
                    assert(node@.around[i as int] == Some(name@));
                    return true;
                }
            },
            None => {},
        }
        i += 1;
    }
    false
}

/// The visible texts of a page, each text node once, in order.
pub fn texts_of(nodes: &Vec<MarkupNode>) -> (out: Vec<String>)
    ensures
        strings(out@) == visible_texts(nodes_of(nodes@)),
{
    let root = TEXT_ROOT.to_owned();
    let script = "script".to_owned();
    let style = "style".to_owned();
    let noscript = "noscript".to_owned();
    let ghost all = nodes_of(nodes@);
    let mut out: Vec<String> = Vec::new();
    let mut i: usize = 0;
    assert(all.take(0) =~= Seq::<MarkupNodeView>::empty());
    assert(strings(out@) =~= Seq::<Seq<char>>::empty());
    while i < nodes.len()
        invariant
            i <= nodes.len(),
            all == nodes_of(nodes@),
            root@ == TEXT_ROOT@,
            script@ == "script"@,
            style@ == "style"@,
            noscript@ == "noscript"@,
            strings(out@) == visible_texts(all.take(i as int)),
        decreases nodes.len() - i,
    {
        let ghost before = strings(out@);
        proof {
            let upto = all.take(i + 1);
            assert(upto.drop_last() == all.take(i as int));
            assert(upto.last() == nodes@[i as int]@);
        }
        let node = &nodes[i];
        match &node.kind {
            MarkupKind::Text(text) => {
                if node_stands_in(node, &root) && !node_stands_in(node, &script) && !node_stands_in(
                    node,
                    &style,
                ) && !node_stands_in(node, &noscript) {
                    out.push(text.clone());
                    assert(strings(out@) =~= before.push(text@));
                }
            },
            _ => {},
        }
        i += 1;
    }
    assert(all.take(i as int) == all);
    out
}

/// The links of a page, in order.
pub fn links_of(nodes: &Vec<MarkupNode>) -> (out: Vec<String>)
    ensures
        strings(out@) == links(nodes_of(nodes@)),
{
    let anchor = LINK_ELEMENT.to_owned();
    let ghost all = nodes_of(nodes@);
    let mut out: Vec<String> = Vec::new();
    let mut i: usize = 0;
    assert(all.take(0) =~= Seq::<MarkupNodeView>::empty());
    assert(strings(out@) =~= Seq::<Seq<char>>::empty());
    while i < nodes.len()
        invariant
            i <= nodes.len(),
            all == nodes_of(nodes@),
            anchor@ == LINK_ELEMENT@,
            strings(out@) == links(all.take(i as int)),
        decreases nodes.len() - i,
    {
        let ghost before = strings(out@);
        proof {
            let upto = all.take(i + 1);
            assert(upto.drop_last() == all.take(i as int));
            assert(upto.last() == nodes@[i as int]@);
        }
        match &nodes[i].kind {
            MarkupKind::Element(name, Some(href)) => {
                if *name == anchor {
                    out.push(href.clone());
                    assert(strings(out@) =~= before.push(href@));
                }
            },
            _ => {},
        }
        i += 1;
    }
    assert(all.take(i as int) == all);
    out
}

} // verus!
