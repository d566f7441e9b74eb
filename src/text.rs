use vstd::prelude::*;

use crate::tree::SimpleTree;

verus! {

/// Attribute pairs as pairs of character sequences.
pub open spec fn attrs_view(a: Seq<(String, String)>) -> Seq<(Seq<char>, Seq<char>)> {
    a.map_values(|p: (String, String)| (p.0@, p.1@))
}

/// No two attributes of the list have the same name: an element's
/// attributes, read as a map from name to value.
pub open spec fn unique_keys(a: Seq<(Seq<char>, Seq<char>)>) -> bool {
    forall|i: int, j: int| 0 <= i < j < a.len() ==> #[trigger] a[i].0 != #[trigger] a[j].0
}

/// Whether no two attributes of the list have the same name.
pub fn has_unique_keys(a: &Vec<(String, String)>) -> (r: bool)
    ensures
        r == unique_keys(attrs_view(a@)),
{
    let ghost v = attrs_view(a@);
    let mut j: usize = 0;
    while j < a.len()
        invariant
            v == attrs_view(a@),
            0 <= j <= a@.len(),
            forall|x: int, y: int| 0 <= x < y < j ==> #[trigger] v[x].0 != #[trigger] v[y].0,
        decreases a@.len() - j,
    {
        let mut i: usize = 0;
        while i < j
            invariant
                v == attrs_view(a@),
                0 <= i <= j < a@.len(),
                forall|x: int, y: int| 0 <= x < y < j ==> #[trigger] v[x].0 != #[trigger] v[y].0,
                forall|x: int| 0 <= x < i ==> #[trigger] v[x].0 != v[j as int].0,
            decreases j - i,
        {
            if a[i].0 == a[j].0 {
                assert(v[i as int].0 == v[j as int].0);
                return false;
            }
            i += 1;
        }
        j += 1;
    }
    true
}

/// A copy of a list of attribute pairs.
pub fn copy_attrs(a: &Vec<(String, String)>) -> (r: Vec<(String, String)>)
    ensures
        r@ == a@,
{
    let mut r: Vec<(String, String)> = Vec::new();
    let mut i: usize = 0;
    while i < a.len()
        invariant
            0 <= i <= a@.len(),
            r@ == a@.take(i as int),
        decreases a@.len() - i,
    {
        let pair = (a[i].0.clone(), a[i].1.clone());
        r.push(pair);
        i += 1;
        assert(r@ =~= a@.take(i as int));
    }
    assert(a@.take(i as int) =~= a@);
    r
}

/// The part of a formatting element that contracts speak of.
pub struct ElementView {
    pub tag: Seq<char>,
    pub start: int,
    pub end: int,
    pub attrs: Seq<(Seq<char>, Seq<char>)>,
}

/// Marks that the text range `[start, end)` of its rich text came from inside
/// an element `tag` of the source markup.
#[derive(Debug)]
pub struct RichTextElement {
    pub tag: String,
    pub start: usize,
    pub end: usize,
    pub attrs: Vec<(String, String)>,
}

impl View for RichTextElement {
    type V = ElementView;

    open spec fn view(&self) -> ElementView {
        ElementView {
            tag: self.tag@,
            start: self.start as int,
            end: self.end as int,
            attrs: attrs_view(self.attrs@),
        }
    }
}

impl RichTextElement {
    pub fn copy(&self) -> (r: RichTextElement)
        ensures
            r@ == self@,
    {
        RichTextElement {
            tag: self.tag.clone(),
            start: self.start,
            end: self.end,
            attrs: copy_attrs(&self.attrs),
        }
    }
}

/// The part of a rich text that contracts speak of: its text and the shape
/// and elements of its formatting tree.
pub struct RichTextView {
    pub text: Seq<char>,
    pub root: usize,
    pub nodes: Seq<ElementView>,
    pub children: Seq<Seq<usize>>,
}

/// A text with a tree of the markup elements that its ranges came from.
#[derive(Debug)]
pub struct RichText {
    pub text: String,
    pub element: SimpleTree<RichTextElement>,
}

impl View for RichText {
    type V = RichTextView;

    open spec fn view(&self) -> RichTextView {
        RichTextView {
            text: self.text@,
            root: self.element.spec_root(),
            nodes: self.element.spec_nodes().map_values(|e: RichTextElement| e@),
            children: self.element.spec_children(),
        }
    }
}

/// The view of a rich text with no text, whose tree is one element without
/// a tag.
pub open spec fn empty_rich_text_view() -> RichTextView {
    RichTextView {
        text: Seq::empty(),
        root: 0,
        nodes: seq![ElementView { tag: Seq::empty(), start: 0, end: 0, attrs: Seq::empty() }],
        children: seq![Seq::empty()],
    }
}

impl RichText {
    /// A rich text with no text, whose tree is one element without a tag.
    pub fn empty() -> (r: RichText)
        ensures
            r@ == empty_rich_text_view(),
            r.element.wf(),
    {
        let root = RichTextElement { tag: String::new(), start: 0, end: 0, attrs: Vec::new() };
        let r = RichText { text: String::new(), element: SimpleTree::new(root) };
        assert(root@.attrs =~= Seq::<(Seq<char>, Seq<char>)>::empty());
        assert(root@ == empty_rich_text_view().nodes[0]);
        assert(r@.nodes =~= empty_rich_text_view().nodes);
        assert(r@.text =~= empty_rich_text_view().text);
        r
    }

    pub fn copy(&self) -> (r: RichText)
        ensures
            r@ == self@,
    {
        let items = self.element.iter();
        let mut nodes: Vec<RichTextElement> = Vec::new();
        let mut i: usize = 0;
        while i < items.len()
            invariant
                items@ == self.element.spec_nodes(),
                0 <= i <= items@.len(),
                nodes@.len() == i,
                forall|k: int| 0 <= k < i ==> #[trigger] nodes@[k]@ == items@[k]@,
            decreases items@.len() - i,
        {
            nodes.push(items[i].copy());
            i += 1;
        }
        let element = self.element.with_nodes(nodes);
        let r = RichText { text: self.text.clone(), element };
        assert(r@.nodes =~= self@.nodes);
        r
    }
}

} // verus!
