//! Hyperlink collection: every `href` attribute on an anchor element, in
//! document order, kept raw (possibly relative, possibly empty).
use crate::dom::{parse_dom, dom_of, nodes_view, NodeKind, SpecKind, SpecNode};
use crate::extract::str_views;
use crate::text::str_eq;
use vstd::prelude::*;

verus! {

/// An anchor element carrying a hyperlink reference.
pub open spec fn is_anchor(n: SpecNode) -> bool {
    match n.kind {
        SpecKind::Element { tag, href } => tag == "a"@ && href is Some,
        _ => false,
    }
}

pub open spec fn anchor_href(n: SpecNode) -> Seq<char>
    recommends
        is_anchor(n),
{
    match n.kind {
        SpecKind::Element { tag, href } => href->0,
        _ => Seq::empty(),
    }
}

/// The hyperlink references among the first `n` nodes, in document order.
pub open spec fn hrefs_upto(dom: Seq<SpecNode>, n: int) -> Seq<Seq<char>>
    decreases n,
{
    if n <= 0 {
        Seq::empty()
    } else {
        hrefs_upto(dom, n - 1) + (if is_anchor(dom[n - 1]) {
            seq![anchor_href(dom[n - 1])]
        } else {
            Seq::empty()
        })
    }
}

/// Every hyperlink reference of the document, in document order.
pub open spec fn dom_hrefs(dom: Seq<SpecNode>) -> Seq<Seq<char>> {
    hrefs_upto(dom, dom.len() as int)
}

/// Collect every `href` of an anchor element of the document, in document
/// order, without resolving or deduplicating; empty references are kept.
pub fn collect_links(html: &str) -> (r: Vec<String>)
    ensures
        str_views(r@) == dom_hrefs(dom_of(html@)),
{
    let nodes = parse_dom(html);
    let ghost dom = nodes_view(nodes@);
    let mut out: Vec<String> = Vec::new();
    let n = nodes.len();
    let mut t: usize = 0;
    while t < n
        invariant
            dom == nodes_view(nodes@),
            n == nodes@.len(),
            0 <= t <= n,
            str_views(out@) == hrefs_upto(dom, t as int),
        decreases n - t,
    {
        let ghost pre = str_views(out@);
        match &nodes[t].kind {
            NodeKind::Element { tag, href } => {
                let mut took = false;
                if str_eq(tag.as_str(), "a") {
                    match href {
                        Some(h) => {
                            out.push(h.clone());
                            took = true;
                        },
                        None => (),
                    }
                }
                proof {
                    if took {
                        assert(str_views(out@) =~= pre.push(out@.last()@));
                        assert(str_views(out@) =~= hrefs_upto(dom, t + 1));
                    } else {
                        assert(str_views(out@) =~= hrefs_upto(dom, t + 1));
                    }
                }
            },
            _ => {
                proof {
                    assert(!is_anchor(dom[t as int]));
                    assert(str_views(out@) =~= hrefs_upto(dom, t + 1));
                }
            },
        }
        t += 1;
    }
    proof {
        assert(nodes_view(nodes@) == dom_of(html@));
    }
    out
}

/// The indices of the anchor elements among the first `n` nodes, ascending.
pub open spec fn anchor_indices(dom: Seq<SpecNode>, n: int) -> Seq<int>
    decreases n,
{
    if n <= 0 {
        Seq::empty()
    } else {
        anchor_indices(dom, n - 1) + (if is_anchor(dom[n - 1]) {
            seq![n - 1]
        } else {
            Seq::empty()
        })
    }
}

/// The collected links are exactly the anchors' references: one per anchor,
/// in document order.
pub proof fn lemma_links_in_document_order(dom: Seq<SpecNode>, n: int)
    requires
        0 <= n <= dom.len(),
    ensures
        hrefs_upto(dom, n).len() == anchor_indices(dom, n).len(),
        forall|j: int|
            0 <= j < hrefs_upto(dom, n).len() ==> {
                &&& 0 <= #[trigger] anchor_indices(dom, n)[j] < n
                &&& is_anchor(dom[anchor_indices(dom, n)[j]])
                &&& hrefs_upto(dom, n)[j] == anchor_href(dom[anchor_indices(dom, n)[j]])
            },
        forall|j1: int, j2: int|
            0 <= j1 < j2 < anchor_indices(dom, n).len() ==> anchor_indices(dom, n)[j1]
                < anchor_indices(dom, n)[j2],
    decreases n,
{
    if n > 0 {
        lemma_links_in_document_order(dom, n - 1);
    }
}

} // verus!
