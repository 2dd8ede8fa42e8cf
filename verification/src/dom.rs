//! A flattened model of a parsed HTML document: the nodes in document
//! (pre-)order, each with the index of its parent. Only what the extraction
//! logic reads is kept: element tags, `href` attributes, and text content.
use vstd::prelude::*;

verus! {

/// What one node of the document holds.
pub enum NodeKind {
    Element { tag: String, href: Option<String> },
    Text { content: String },
    Other,
}

/// One node of the flattened document tree.
pub struct DomNode {
    /// Index of the parent node in the node list; `None` for the root.
    pub parent: Option<usize>,
    pub kind: NodeKind,
}

/// Mathematical counterpart of [`NodeKind`].
pub enum SpecKind {
    Element { tag: Seq<char>, href: Option<Seq<char>> },
    Text { content: Seq<char> },
    Other,
}

/// Mathematical counterpart of [`DomNode`].
pub struct SpecNode {
    pub parent: Option<int>,
    pub kind: SpecKind,
}

impl View for NodeKind {
    type V = SpecKind;

    open spec fn view(&self) -> SpecKind {
        match self {
            NodeKind::Element { tag, href } => SpecKind::Element {
                tag: tag@,
                href: match href {
                    Some(h) => Some(h@),
                    None => None,
                },
            },
            NodeKind::Text { content } => SpecKind::Text { content: content@ },
            NodeKind::Other => SpecKind::Other,
        }
    }
}

impl View for DomNode {
    type V = SpecNode;

    open spec fn view(&self) -> SpecNode {
        SpecNode {
            parent: match self.parent {
                Some(p) => Some(p as int),
                None => None,
            },
            kind: self.kind@,
        }
    }
}

/// A node list is well formed when every parent stands before its children,
/// as pre-order traversal guarantees.
pub open spec fn wf_dom(dom: Seq<SpecNode>) -> bool {
    forall|i: int|
        0 <= i < dom.len() ==> (match (#[trigger] dom[i]).parent {
            Some(p) => 0 <= p < i,
            None => true,
        })
}

/// The view of a vector of nodes.
pub open spec fn nodes_view(nodes: Seq<DomNode>) -> Seq<SpecNode> {
    nodes.map_values(|n: DomNode| n@)
}

/// The flattened node list of the document that the given text parses to.
/// The result depends on the text alone; it is only ever learned through
/// [`parse_dom`].
pub uninterp spec fn dom_of(html: Seq<char>) -> Seq<SpecNode>;

/// An element node, as the parser's traversal hands it over.
pub(crate) fn element_node(parent: Option<usize>, tag: String, href: Option<String>) -> (r: DomNode)
    ensures
        r == (DomNode { parent, kind: NodeKind::Element { tag, href } }),
{
    DomNode { parent, kind: NodeKind::Element { tag, href } }
}

/// A text node, as the parser's traversal hands it over.
pub(crate) fn text_node(parent: Option<usize>, content: String) -> (r: DomNode)
    ensures
        r == (DomNode { parent, kind: NodeKind::Text { content } }),
{
    DomNode { parent, kind: NodeKind::Text { content } }
}

/// Any other kind of node: kept only for its place in the tree.
pub(crate) fn other_node(parent: Option<usize>) -> (r: DomNode)
    ensures
        r == (DomNode { parent, kind: NodeKind::Other }),
{
    DomNode { parent, kind: NodeKind::Other }
}

/// Relies on `scraper::Html::parse_document` and the pre-order traversal of
/// its node tree: returns every node of the parsed document in document
/// order, each with its parent's index (so parents stand before children),
/// its tag and `href` attribute for elements, and its content for text nodes.
#[verifier::external_body]
pub fn parse_dom(html: &str) -> (r: Vec<DomNode>)
    ensures
        nodes_view(r@) == dom_of(html@),
        wf_dom(nodes_view(r@)),
{
    let doc = scraper::Html::parse_document(html);
    let mut ids = std::collections::HashMap::new();
    let mut out: Vec<DomNode> = Vec::new();
    for n in doc.tree.root().descendants() {
        let parent = n.parent().and_then(|p| ids.get(&p.id()).copied());
        ids.insert(n.id(), out.len());
        out.push(match n.value() {
            scraper::Node::Element(e) => element_node(parent, e.name().to_string(), e.attr("href").map(|h| h.to_string())),
            scraper::Node::Text(t) => text_node(parent, t.to_string()),
            _ => other_node(parent),
        });
    }
    out
}

} // verus!
