use vstd::prelude::*;

use crate::text::{attrs_view, has_unique_keys, unique_keys};
use crate::tree::SimpleTree;

verus! {

/// A node of a parsed document: an element with its tag, its attributes and
/// its markup as the parser serialises it, a run of text, or anything else (a
/// comment, a doctype). The markup may be left empty where nothing reads it.
#[derive(Debug)]
pub enum DomNode {
    Element { tag: String, attrs: Vec<(String, String)>, html: String },
    Text { text: String },
    Other,
}

pub enum DomNodeView {
    Element { tag: Seq<char>, attrs: Seq<(Seq<char>, Seq<char>)>, html: Seq<char> },
    Text { text: Seq<char> },
    Other,
}

impl View for DomNode {
    type V = DomNodeView;

    open spec fn view(&self) -> DomNodeView {
        match self {
            DomNode::Element { tag, attrs, html } => DomNodeView::Element {
                tag: tag@,
                attrs: attrs_view(attrs@),
                html: html@,
            },
            DomNode::Text { text } => DomNodeView::Text { text: text@ },
            DomNode::Other => DomNodeView::Other,
        }
    }
}

/// A parsed document: a tree of nodes whose children are in document order.
pub type Dom = SimpleTree<DomNode>;

pub open spec fn dom_nodes(d: &Dom) -> Seq<DomNodeView> {
    d.spec_nodes().map_values(|n: DomNode| n@)
}

pub open spec fn strings_view(v: Seq<String>) -> Seq<Seq<char>> {
    v.map_values(|s: String| s@)
}

/// Every element of the document has attributes with distinct names.
pub open spec fn dom_attrs_unique(d: &Dom) -> bool {
    forall|i: int|
        0 <= i < d.spec_len() ==> match #[trigger] dom_nodes(d)[i] {
            DomNodeView::Element { attrs, .. } => unique_keys(attrs),
            _ => true,
        }
}

/// Whether every element of the document has attributes with distinct names.
pub fn attrs_unique(d: &Dom) -> (r: bool)
    ensures
        r == dom_attrs_unique(d),
{
    let nodes = d.iter();
    let mut i: usize = 0;
    while i < nodes.len()
        invariant
            nodes@ == d.spec_nodes(),
            0 <= i <= nodes@.len(),
            forall|k: int|
                0 <= k < i ==> match #[trigger] dom_nodes(d)[k] {
                    DomNodeView::Element { attrs, .. } => unique_keys(attrs),
                    _ => true,
                },
        decreases nodes@.len() - i,
    {
        assert(nodes@[i as int]@ == dom_nodes(d)[i as int]);
        match &nodes[i] {
            DomNode::Element { attrs, .. } => {
                if !has_unique_keys(attrs) {
                    return false;
                }
            },
            _ => {},
        }
        i += 1;
    }
    true
}

/// Whether `s` holds a string equal to `t`.
pub fn contains_str(s: &Vec<String>, t: &String) -> (r: bool)
    ensures
        r == strings_view(s@).contains(t@),
{
    let mut i: usize = 0;
    while i < s.len()
        invariant
            0 <= i <= s@.len(),
            forall|k: int| 0 <= k < i ==> s@[k]@ != t@,
        decreases s@.len() - i,
    {
        if s[i] == *t {
            assert(strings_view(s@)[i as int] == t@);
            return true;
        }
        i += 1;
    }
    proof {
        if strings_view(s@).contains(t@) {
            let k = choose|k: int| 0 <= k < strings_view(s@).len() && strings_view(s@)[k] == t@;
            assert(s@[k]@ == t@);
        }
    }
    false
}

} // verus!
