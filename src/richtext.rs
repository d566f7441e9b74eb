use vstd::prelude::*;

use crate::dom::{contains_str, dom_nodes, strings_view, Dom, DomNode, DomNodeView};
use crate::text::{copy_attrs, ElementView, RichText, RichTextElement, RichTextView};
use crate::tagset::{set_of, tag_set, TagSet};
use crate::tree::{shift_children, skip_root_ids, SimpleTree};

verus! {

/// What happens to an element during extraction.
pub enum TagClass {
    /// Left out with everything inside it.
    Discard,
    /// Kept, whatever the other settings say.
    AlwaysKeep,
    /// Left out, but what is inside it is kept, one level up.
    DropWrapper,
    /// Kept.
    Keep,
}

/// The tag sets that steer extraction.
pub struct TagFilter {
    pub ignored_tags: TagSet,
    pub discard_tags: TagSet,
    pub keep_tags: TagSet,
    pub inline_tags: TagSet,
    pub only_inline: bool,
}

pub struct TagFilterView {
    pub ignored: Set<Seq<char>>,
    pub discard: Set<Seq<char>>,
    pub keep: Set<Seq<char>>,
    pub inline: Set<Seq<char>>,
    pub only_inline: bool,
}

impl View for TagFilter {
    type V = TagFilterView;

    open spec fn view(&self) -> TagFilterView {
        TagFilterView {
            ignored: tag_set(self.ignored_tags),
            discard: tag_set(self.discard_tags),
            keep: tag_set(self.keep_tags),
            inline: tag_set(self.inline_tags),
            only_inline: self.only_inline,
        }
    }
}

pub open spec fn classify(f: TagFilterView, tag: Seq<char>) -> TagClass {
    if f.discard.contains(tag) {
        TagClass::Discard
    } else if f.keep.contains(tag) {
        TagClass::AlwaysKeep
    } else if f.ignored.contains(tag) || (f.only_inline && !f.inline.contains(tag)) {
        TagClass::DropWrapper
    } else {
        TagClass::Keep
    }
}

impl TagFilter {
    pub fn classify(&self, tag: &String) -> (r: TagClass)
        ensures
            r == classify(self@, tag@),
    {
        if self.discard_tags.contains(tag) {
            TagClass::Discard
        } else if self.keep_tags.contains(tag) {
            TagClass::AlwaysKeep
        } else if self.ignored_tags.contains(tag) || (self.only_inline
            && !self.inline_tags.contains(tag)) {
            TagClass::DropWrapper
        } else {
            TagClass::Keep
        }
    }
}

/// The element that stands for node `n` at the root of its own extraction,
/// starting at `offset`: the node's tag and attributes when the element is
/// kept, no tag otherwise.
pub open spec fn root_element(f: TagFilterView, n: DomNodeView, offset: int) -> ElementView {
    match n {
        DomNodeView::Element { tag, attrs, html } => match classify(f, tag) {
            TagClass::AlwaysKeep | TagClass::Keep => ElementView {
                tag,
                start: offset,
                end: offset,
                attrs,
            },
            _ => ElementView { tag: Seq::empty(), start: offset, end: offset, attrs: Seq::empty() },
        },
        _ => ElementView { tag: Seq::empty(), start: offset, end: offset, attrs: Seq::empty() },
    }
}

/// `sub` made the last child of the root of `acc`.
pub open spec fn attach(acc: RichTextView, sub: RichTextView) -> RichTextView {
    RichTextView {
        text: acc.text + sub.text,
        root: acc.root,
        nodes: acc.nodes + sub.nodes,
        children: (acc.children + shift_children(sub.children, acc.nodes.len() as int)).update(
            acc.root as int,
            acc.children[acc.root as int].push((sub.root + acc.nodes.len()) as usize),
        ),
    }
}

/// The children of the root of `sub` made the last children of the root of
/// `acc`, without the root of `sub` itself.
pub open spec fn attach_without_root(acc: RichTextView, sub: RichTextView) -> RichTextView {
    RichTextView {
        text: acc.text + sub.text,
        root: acc.root,
        nodes: acc.nodes + sub.nodes.remove(sub.root as int),
        children: acc.children.update(
            acc.root as int,
            acc.children[acc.root as int] + skip_root_ids(
                sub.children[sub.root as int],
                sub.root,
                acc.nodes.len() as int,
            ),
        ) + sub.children.remove(sub.root as int).map_values(
            |ids: Seq<usize>| skip_root_ids(ids, sub.root, acc.nodes.len() as int),
        ),
    }
}

/// Whether the sizes of a rich text can be counted in `usize`.
pub open spec fn fits(t: RichTextView) -> bool {
    t.text.len() < usize::MAX && t.nodes.len() < usize::MAX
}

/// The rich text of node `id`, whose text starts at `offset` of the whole,
/// descending at most `fuel` levels. `None` when the depth runs out or the
/// sizes cannot be counted in `usize`.
pub open spec fn extraction(
    d: Seq<DomNodeView>,
    ch: Seq<Seq<usize>>,
    f: TagFilterView,
    id: usize,
    offset: int,
    fuel: nat,
) -> Option<RichTextView>
    decreases fuel, 0nat,
{
    if fuel == 0 {
        None
    } else {
        let start = RichTextView {
            text: Seq::empty(),
            root: 0,
            nodes: seq![root_element(f, d[id as int], offset)],
            children: seq![Seq::empty()],
        };
        let body = match d[id as int] {
            DomNodeView::Text { text } => if text.len() < usize::MAX {
                Some(RichTextView { text, ..start })
            } else {
                None
            },
            DomNodeView::Element { tag, attrs, html } => if classify(f, tag) is Discard {
                Some(start)
            } else {
                absorb_all(d, ch, f, ch[id as int], (fuel - 1) as nat, offset, start)
            },
            DomNodeView::Other => Some(start),
        };
        match body {
            Some(t) => if offset + t.text.len() < usize::MAX {
                Some(
                    RichTextView {
                        nodes: t.nodes.update(
                            0,
                            ElementView { end: offset + t.text.len(), ..t.nodes[0] },
                        ),
                        ..t
                    },
                )
            } else {
                None
            },
            None => None,
        }
    }
}

/// Adds what child `c` contributes to `acc`, whose text starts at `offset`.
pub open spec fn absorb(
    d: Seq<DomNodeView>,
    ch: Seq<Seq<usize>>,
    f: TagFilterView,
    c: usize,
    fuel: nat,
    offset: int,
    acc: RichTextView,
) -> Option<RichTextView>
    decreases fuel, 1nat,
{
    match d[c as int] {
        DomNodeView::Text { text } => if acc.text.len() + text.len() < usize::MAX {
            Some(RichTextView { text: acc.text + text, ..acc })
        } else {
            None
        },
        DomNodeView::Element { tag, attrs, html } => match classify(f, tag) {
            TagClass::Discard => Some(acc),
            k => match extraction(d, ch, f, c, offset + acc.text.len(), fuel) {
                Some(sub) => {
                    let r = if k is DropWrapper {
                        attach_without_root(acc, sub)
                    } else {
                        attach(acc, sub)
                    };
                    if fits(r) {
                        Some(r)
                    } else {
                        None
                    }
                },
                None => None,
            },
        },
        DomNodeView::Other => Some(acc),
    }
}

/// Adds what each child in `ids` contributes, in order.
pub open spec fn absorb_all(
    d: Seq<DomNodeView>,
    ch: Seq<Seq<usize>>,
    f: TagFilterView,
    ids: Seq<usize>,
    fuel: nat,
    offset: int,
    start: RichTextView,
) -> Option<RichTextView>
    decreases fuel, ids.len() + 2,
{
    if ids.len() == 0 {
        Some(start)
    } else {
        match absorb_all(d, ch, f, ids.drop_last(), fuel, offset, start) {
            Some(acc) => absorb(d, ch, f, ids.last(), fuel, offset, acc),
            None => None,
        }
    }
}

pub open spec fn opt_view(o: Option<RichText>) -> Option<RichTextView> {
    match o {
        Some(t) => Some(t@),
        None => None,
    }
}

/// A rich text built during extraction: a well-formed tree rooted at node 0,
/// which no node names as a child.
pub open spec fn is_fragment(t: RichText) -> bool {
    &&& t.element.wf()
    &&& t.element.spec_root() == 0
    &&& t.element.root_is_unparented()
    &&& t.element.spec_len() >= 1
}

pub open spec fn node_views(s: Seq<RichTextElement>) -> Seq<ElementView> {
    s.map_values(|e: RichTextElement| e@)
}

pub(crate) fn attach_exec(acc: &mut RichText, sub: RichText, drop_root: bool) -> (ok: bool)
    requires
        is_fragment(*old(acc)),
        is_fragment(sub),
    ensures
        ok == fits(
            if drop_root {
                attach_without_root(old(acc)@, sub@)
            } else {
                attach(old(acc)@, sub@)
            },
        ),
        ok ==> final(acc)@ == (if drop_root {
            attach_without_root(old(acc)@, sub@)
        } else {
            attach(old(acc)@, sub@)
        }),
        ok ==> is_fragment(*final(acc)),
{
    let ghost want = if drop_root {
        attach_without_root(acc@, sub@)
    } else {
        attach(acc@, sub@)
    };
    let a = acc.element.len();
    let b = sub.element.len();
    let ta = acc.text.as_str().unicode_len();
    let tb = sub.text.as_str().unicode_len();
    if b > usize::MAX - a || tb >= usize::MAX - ta {
        return false;
    }
    let total = if drop_root {
        a + b - 1
    } else {
        a + b
    };
    if total >= usize::MAX {
        return false;
    }
    let ghost old_nodes = acc.element.spec_nodes();
    let ghost sub_nodes = sub.element.spec_nodes();
    let ghost old_children = acc.element.spec_children();
    let RichText { text: sub_text, element: sub_tree } = sub;
    if drop_root {
        acc.element.merge_subtree_no_root(0, sub_tree);
        proof {
            let n = node_views(old_nodes + sub_nodes.remove(0));
            assert(n =~= node_views(old_nodes) + node_views(sub_nodes).remove(0));
        }
    } else {
        acc.element.merge_subtree(0, sub_tree);
        proof {
            let n = node_views(old_nodes + sub_nodes);
            assert(n =~= node_views(old_nodes) + node_views(sub_nodes));
        }
    }
    acc.text.append(sub_text.as_str());
    proof {
        let ch = acc.element.spec_children();
        assert forall|i: int, j: int|
            0 <= i < ch.len() && 0 <= j < ch[i].len() implies #[trigger] ch[i][j] != 0 by {
            if i < old_children.len() {
                if i == 0 && j >= old_children[0].len() {
                } else {
                    assert(old_children[i][j] != 0);
                }
            }
        }
    }
    true
}

pub(crate) fn root_element_exec(f: &TagFilter, n: &DomNode, offset: usize) -> (r: RichTextElement)
    ensures
        r@ == root_element(f@, n@, offset as int),
{
    match n {
        DomNode::Element { tag, attrs, html } => match f.classify(tag) {
            TagClass::AlwaysKeep | TagClass::Keep => RichTextElement {
                tag: tag.clone(),
                start: offset,
                end: offset,
                attrs: copy_attrs(attrs),
            },
            _ => {
                let r = RichTextElement { tag: String::new(), start: offset, end: offset, attrs: Vec::new() };
                assert(r@.attrs =~= Seq::<(Seq<char>, Seq<char>)>::empty());
                r
            },
        },
        _ => {
            let r = RichTextElement { tag: String::new(), start: offset, end: offset, attrs: Vec::new() };
            assert(r@.attrs =~= Seq::<(Seq<char>, Seq<char>)>::empty());
            r
        },
    }
}

/// Extraction of node `id` by direct recursion.
fn extract_node(dom: &Dom, f: &TagFilter, id: usize, offset: usize, fuel: usize) -> (r: Option<RichText>)
    requires
        dom.wf(),
        id < dom.spec_len(),
    ensures
        opt_view(r) == extraction(dom_nodes(dom), dom.spec_children(), f@, id, offset as int, fuel as nat),
        r matches Some(t) ==> is_fragment(t),
    decreases fuel, 0nat,
{
    if fuel == 0 {
        return None;
    }
    let ghost d = dom_nodes(dom);
    let ghost ch = dom.spec_children();
    let node = dom.get_node(id);
    assert(node@ == d[id as int]);
    let root = root_element_exec(f, node, offset);
    let ghost start = RichTextView {
        text: Seq::empty(),
        root: 0,
        nodes: seq![root_element(f@, d[id as int], offset as int)],
        children: seq![Seq::empty()],
    };
    let mut acc = RichText { text: String::new(), element: SimpleTree::new(root) };
    assert(acc@.nodes =~= start.nodes);
    assert(acc@.text =~= start.text);
    assert(acc@ == start);
    let body: Option<RichText> = match node {
        DomNode::Text { text } => {
            if text.as_str().unicode_len() < usize::MAX {
                acc.text = text.clone();
                Some(acc)
            } else {
                None
            }
        },
        DomNode::Element { tag, attrs, html } => {
            if matches!(f.classify(tag), TagClass::Discard) {
                Some(acc)
            } else {
                absorb_children(dom, f, dom.get_child_ids(id), fuel - 1, offset, acc)
            }
        },
        DomNode::Other => Some(acc),
    };
    match body {
        Some(mut t) => {
            let len = t.text.as_str().unicode_len();
            if len < usize::MAX - offset {
                let ghost before = t@;
                t.element.get_root_mut().end = offset + len;
                assert(t@.nodes =~= before.nodes.update(
                    0,
                    ElementView { end: offset + before.text.len(), ..before.nodes[0] },
                ));
                Some(t)
            } else {
                None
            }
        },
        None => None,
    }
}

/// Adds, child by child, what the nodes `ids` contribute to `acc`.
pub(crate) fn absorb_children(
    dom: &Dom,
    f: &TagFilter,
    ids: &[usize],
    fuel: usize,
    offset: usize,
    acc: RichText,
) -> (r: Option<RichText>)
    requires
        dom.wf(),
        is_fragment(acc),
        forall|j: int| 0 <= j < ids@.len() ==> #[trigger] ids@[j] < dom.spec_len(),
    ensures
        opt_view(r) == absorb_all(dom_nodes(dom), dom.spec_children(), f@, ids@, fuel as nat, offset as int, acc@),
        r matches Some(t) ==> is_fragment(t),
    decreases fuel, 2nat,
{
    let ghost d = dom_nodes(dom);
    let ghost ch = dom.spec_children();
    let ghost start = acc@;
    let mut cur: Option<RichText> = Some(acc);
    let mut k: usize = 0;
    assert(ids@.take(0) =~= Seq::<usize>::empty());
    while k < ids.len()
        invariant
            dom.wf(),
            d == dom_nodes(dom),
            ch == dom.spec_children(),
            forall|j: int| 0 <= j < ids@.len() ==> #[trigger] ids@[j] < dom.spec_len(),
            0 <= k <= ids@.len(),
            opt_view(cur) == absorb_all(d, ch, f@, ids@.take(k as int), fuel as nat, offset as int, start),
            cur matches Some(t) ==> is_fragment(t),
        decreases ids@.len() - k,
    {
        assert(ids@.take(k + 1).drop_last() =~= ids@.take(k as int));
        assert(ids@.take(k + 1).last() == ids@[k as int]);
        cur = match cur {
            Some(a) => absorb_child(dom, f, ids[k], fuel, offset, a),
            None => None,
        };
        k += 1;
    }
    assert(ids@.take(k as int) =~= ids@);
    cur
}

/// Adds what node `c` contributes to `acc`.
fn absorb_child(dom: &Dom, f: &TagFilter, c: usize, fuel: usize, offset: usize, acc: RichText) -> (r:
    Option<RichText>)
    requires
        dom.wf(),
        is_fragment(acc),
        c < dom.spec_len(),
    ensures
        opt_view(r) == absorb(dom_nodes(dom), dom.spec_children(), f@, c, fuel as nat, offset as int, acc@),
        r matches Some(t) ==> is_fragment(t),
    decreases fuel, 1nat,
{
    let ghost d = dom_nodes(dom);
    let node = dom.get_node(c);
    assert(node@ == d[c as int]);
    let mut acc = acc;
    match node {
        DomNode::Text { text } => {
            let ta = acc.text.as_str().unicode_len();
            let tb = text.as_str().unicode_len();
            if tb < usize::MAX - ta {
                acc.text.append(text.as_str());
                Some(acc)
            } else {
                None
            }
        },
        DomNode::Element { tag, attrs, html } => {
            let class = f.classify(tag);
            let drop_root = matches!(class, TagClass::DropWrapper);
            if matches!(class, TagClass::Discard) {
                return Some(acc);
            }
            let ta = acc.text.as_str().unicode_len();
            if ta >= usize::MAX - offset {
                proof {
                    lemma_far_offset_fails(d, dom.spec_children(), f@, c, offset + acc@.text.len(), fuel as nat);
                }
                return None;
            }
            match extract_node(dom, f, c, offset + ta, fuel) {
                Some(sub) => {
                    if attach_exec(&mut acc, sub, drop_root) {
                        Some(acc)
                    } else {
                        None
                    }
                },
                None => None,
            }
        },
        DomNode::Other => Some(acc),
    }
}

/// An extraction whose text would start at or past `usize::MAX` gives nothing.
pub(crate) proof fn lemma_far_offset_fails(
    d: Seq<DomNodeView>,
    ch: Seq<Seq<usize>>,
    f: TagFilterView,
    id: usize,
    offset: int,
    fuel: nat,
)
    requires
        offset >= usize::MAX,
    ensures
        extraction(d, ch, f, id, offset, fuel) is None,
{
}

proof fn lemma_absorb_keeps_root(
    d: Seq<DomNodeView>,
    ch: Seq<Seq<usize>>,
    f: TagFilterView,
    c: usize,
    fuel: nat,
    offset: int,
    acc: RichTextView,
)
    requires
        acc.nodes.len() >= 1,
        acc.root == 0,
    ensures
        absorb(d, ch, f, c, fuel, offset, acc) matches Some(t) ==> t.nodes.len() >= 1 && t.nodes[0]
            == acc.nodes[0] && t.root == 0,
{
    match absorb(d, ch, f, c, fuel, offset, acc) {
        Some(t) => {
            if t.nodes.len() >= 1 {
                assert(t.nodes[0] == acc.nodes[0]);
            }
        },
        None => {},
    }
}

proof fn lemma_absorb_all_keeps_root(
    d: Seq<DomNodeView>,
    ch: Seq<Seq<usize>>,
    f: TagFilterView,
    ids: Seq<usize>,
    fuel: nat,
    offset: int,
    start: RichTextView,
)
    requires
        start.nodes.len() >= 1,
        start.root == 0,
    ensures
        absorb_all(d, ch, f, ids, fuel, offset, start) matches Some(t) ==> t.nodes.len() >= 1
            && t.nodes[0] == start.nodes[0] && t.root == 0,
    decreases ids.len(),
{
    if ids.len() > 0 {
        lemma_absorb_all_keeps_root(d, ch, f, ids.drop_last(), fuel, offset, start);
        match absorb_all(d, ch, f, ids.drop_last(), fuel, offset, start) {
            Some(acc) => lemma_absorb_keeps_root(d, ch, f, ids.last(), fuel, offset, acc),
            None => {},
        }
    }
}

/// The root element of an extracted rich text is its element 0 and covers
/// its whole text: it starts where the text starts and ends where the text
/// ends.
pub proof fn lemma_root_covers_text(
    d: Seq<DomNodeView>,
    ch: Seq<Seq<usize>>,
    f: TagFilterView,
    id: usize,
    offset: int,
    fuel: nat,
)
    ensures
        extraction(d, ch, f, id, offset, fuel) matches Some(t) ==> t.root == 0 && t.nodes.len() >= 1
            && t.nodes[0].start == offset && t.nodes[0].end == offset + t.text.len(),
{
    if fuel > 0 {
        let start = RichTextView {
            text: Seq::empty(),
            root: 0,
            nodes: seq![root_element(f, d[id as int], offset)],
            children: seq![Seq::empty()],
        };
        lemma_absorb_all_keeps_root(d, ch, f, ch[id as int], (fuel - 1) as nat, offset, start);
        assert(root_element(f, d[id as int], offset).start == offset);
    }
}

/// The rich text of node `id` of the document, its text starting at 0. The
/// walk may descend as many levels as the document has nodes, which is
/// enough for any tree.
pub open spec fn rich_text_of(dom: &Dom, id: usize, f: TagFilterView) -> Option<RichTextView> {
    extraction(dom_nodes(dom), dom.spec_children(), f, id, 0, dom.spec_len())
}

/// Settings that keep every element.
pub open spec fn no_filter() -> TagFilterView {
    TagFilterView {
        ignored: Set::empty(),
        discard: Set::empty(),
        keep: Set::empty(),
        inline: Set::empty(),
        only_inline: false,
    }
}

impl TagFilter {
    /// Settings that keep every element.
    pub fn none() -> (r: TagFilter)
        ensures
            r@ == no_filter(),
    {
        TagFilter {
            ignored_tags: TagSet::new(),
            discard_tags: TagSet::new(),
            keep_tags: TagSet::new(),
            inline_tags: TagSet::new(),
            only_inline: false,
        }
    }

    /// Settings from lists of tags.
    pub fn from_lists(
        ignored: Vec<String>,
        discard: Vec<String>,
        keep: Vec<String>,
        inline: Vec<String>,
        only_inline: bool,
    ) -> (r: TagFilter)
        ensures
            r@.ignored == set_of(strings_view(ignored@)),
            r@.discard == set_of(strings_view(discard@)),
            r@.keep == set_of(strings_view(keep@)),
            r@.inline == set_of(strings_view(inline@)),
            r@.only_inline == only_inline,
    {
        TagFilter {
            ignored_tags: TagSet::from_vec(ignored),
            discard_tags: TagSet::from_vec(discard),
            keep_tags: TagSet::from_vec(keep),
            inline_tags: TagSet::from_vec(inline),
            only_inline,
        }
    }
}

/// The text of node `id` and the tree of the elements that it came from.
/// `None` only where the document nests deeper than it has nodes, or the
/// result cannot be counted in `usize`.
pub fn get_rich_text(dom: &Dom, id: usize, f: &TagFilter) -> (r: Option<RichText>)
    requires
        dom.wf(),
        id < dom.spec_len(),
    ensures
        opt_view(r) == rich_text_of(dom, id, f@),
        r matches Some(t) ==> is_fragment(t),
{
    extract_node(dom, f, id, 0, dom.len())
}

/// All text under node `id`, every element kept.
pub fn get_text(dom: &Dom, id: usize) -> (r: Option<String>)
    requires
        dom.wf(),
        id < dom.spec_len(),
    ensures
        r matches Some(t) ==> rich_text_of(dom, id, no_filter()) matches Some(v) && t@ == v.text,
        r is None ==> rich_text_of(dom, id, no_filter()) is None,
{
    let f = TagFilter::none();
    match get_rich_text(dom, id, &f) {
        Some(t) => Some(t.text),
        None => None,
    }
}

} // verus!
