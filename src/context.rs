use vstd::prelude::*;

use crate::dom::{contains_str, dom_nodes, strings_view, Dom, DomNode, DomNodeView};
use crate::richtext::{
    absorb_all, absorb_children, classify, get_rich_text, opt_view, rich_text_of, TagClass,
    TagFilter, TagFilterView,
};
use crate::text::{ElementView, RichText, RichTextElement, RichTextView};
use crate::tagset::set_of;
use crate::tree::SimpleTree;

verus! {

pub struct ContentHierarchyView {
    pub level: int,
    pub heading: RichTextView,
    pub content_before: Seq<RichTextView>,
    pub content_after: Seq<RichTextView>,
}

/// The heading of one nesting level around a target element, with the blocks
/// of content that stand before and after the path to the target there.
#[derive(Debug)]
pub struct ContentHierarchy {
    pub level: usize,
    pub heading: RichText,
    pub content_before: Vec<RichText>,
    pub content_after: Vec<RichText>,
}

pub open spec fn rich_texts_view(v: Seq<RichText>) -> Seq<RichTextView> {
    v.map_values(|t: RichText| t@)
}

impl View for ContentHierarchy {
    type V = ContentHierarchyView;

    open spec fn view(&self) -> ContentHierarchyView {
        ContentHierarchyView {
            level: self.level as int,
            heading: self.heading@,
            content_before: rich_texts_view(self.content_before@),
            content_after: rich_texts_view(self.content_after@),
        }
    }
}

pub fn copy_rich_texts(v: &Vec<RichText>) -> (r: Vec<RichText>)
    ensures
        rich_texts_view(r@) == rich_texts_view(v@),
{
    let mut r: Vec<RichText> = Vec::new();
    let mut i: usize = 0;
    while i < v.len()
        invariant
            0 <= i <= v@.len(),
            r@.len() == i,
            forall|k: int| 0 <= k < i ==> #[trigger] r@[k]@ == v@[k]@,
        decreases v@.len() - i,
    {
        r.push(v[i].copy());
        i += 1;
    }
    assert(rich_texts_view(r@) =~= rich_texts_view(v@));
    r
}

impl ContentHierarchy {
    pub fn copy(&self) -> (r: ContentHierarchy)
        ensures
            r@ == self@,
    {
        ContentHierarchy {
            level: self.level,
            heading: self.heading.copy(),
            content_before: copy_rich_texts(&self.content_before),
            content_after: copy_rich_texts(&self.content_after),
        }
    }
}

pub open spec fn hierarchies_view(v: Seq<ContentHierarchy>) -> Seq<ContentHierarchyView> {
    v.map_values(|h: ContentHierarchy| h@)
}

pub fn copy_hierarchies(v: &Vec<ContentHierarchy>) -> (r: Vec<ContentHierarchy>)
    ensures
        hierarchies_view(r@) == hierarchies_view(v@),
{
    let mut r: Vec<ContentHierarchy> = Vec::new();
    let mut i: usize = 0;
    while i < v.len()
        invariant
            0 <= i <= v@.len(),
            r@.len() == i,
            forall|k: int| 0 <= k < i ==> #[trigger] r@[k]@ == v@[k]@,
        decreases v@.len() - i,
    {
        r.push(v[i].copy());
        i += 1;
    }
    assert(hierarchies_view(r@) =~= hierarchies_view(v@));
    r
}

/// The ids from `node` down to `target`, each a child of the one before,
/// descending at most `fuel` levels; the first child in order whose subtree
/// holds the target is taken.
pub open spec fn path_to(ch: Seq<Seq<usize>>, node: usize, target: usize, fuel: nat) -> Option<
    Seq<usize>,
>
    decreases fuel, 0nat,
{
    if node == target {
        Some(seq![node])
    } else if fuel == 0 {
        None
    } else {
        match path_among(ch, ch[node as int], target, (fuel - 1) as nat) {
            Some(p) => Some(seq![node] + p),
            None => None,
        }
    }
}

pub open spec fn path_among(ch: Seq<Seq<usize>>, ids: Seq<usize>, target: usize, fuel: nat) -> Option<
    Seq<usize>,
>
    decreases fuel, ids.len() + 1,
{
    if ids.len() == 0 {
        None
    } else {
        match path_among(ch, ids.drop_last(), target, fuel) {
            Some(p) => Some(p),
            None => path_to(ch, ids.last(), target, fuel),
        }
    }
}

/// Whether a node goes into a run of inline content: text, or an element
/// with an inline tag.
pub open spec fn is_inline(f: TagFilterView, n: DomNodeView) -> bool {
    match n {
        DomNodeView::Text { .. } => true,
        DomNodeView::Element { tag, .. } => f.inline.contains(tag),
        DomNodeView::Other => false,
    }
}

/// The children `ids` cut into segments: each maximal run of inline nodes
/// is one segment (marked `true`), each other element one of its own.
pub open spec fn segments(d: Seq<DomNodeView>, f: TagFilterView, ids: Seq<usize>) -> Seq<
    (bool, Seq<usize>),
>
    decreases ids.len(),
{
    if ids.len() == 0 {
        seq![]
    } else {
        let s = segments(d, f, ids.drop_last());
        let c = ids.last();
        if is_inline(f, d[c as int]) {
            if s.len() > 0 && s.last().0 {
                s.update(s.len() - 1, (true, s.last().1.push(c)))
            } else {
                s.push((true, seq![c]))
            }
        } else if d[c as int] is Element {
            s.push((false, seq![c]))
        } else {
            s
        }
    }
}

/// The rich text of a run of inline nodes, under a root without a tag.
pub open spec fn run_text(dom: &Dom, f: TagFilterView, ids: Seq<usize>) -> Option<RichTextView> {
    match absorb_all(
        dom_nodes(dom),
        dom.spec_children(),
        f,
        ids,
        dom.spec_len(),
        0,
        RichTextView {
            text: Seq::empty(),
            root: 0,
            nodes: seq![ElementView { tag: Seq::empty(), start: 0, end: 0, attrs: Seq::empty() }],
            children: seq![Seq::empty()],
        },
    ) {
        Some(t) => if t.text.len() < usize::MAX {
            Some(
                RichTextView {
                    nodes: t.nodes.update(0, ElementView { end: t.text.len() as int, ..t.nodes[0] }),
                    ..t
                },
            )
        } else {
            None
        },
        None => None,
    }
}

pub open spec fn all_space(s: Seq<char>) -> bool {
    forall|i: int| 0 <= i < s.len() ==> crate::attr::is_space(#[trigger] s[i])
}

/// Whether node `c` is an element that extraction leaves out entirely.
pub open spec fn is_discarded(f: TagFilterView, n: DomNodeView) -> bool {
    match n {
        DomNodeView::Element { tag, .. } => classify(f, tag) is Discard,
        _ => false,
    }
}

/// Whether node `c` is an element whose tag is a heading tag.
pub open spec fn is_heading(d: Seq<DomNodeView>, heads: Seq<Seq<char>>, c: usize) -> bool {
    match d[c as int] {
        DomNodeView::Element { tag, .. } => heads.contains(tag),
        _ => false,
    }
}

/// Whether element `c` holds an element that is not inline: such a
/// container is flattened into the blocks of its children.
pub open spec fn has_block_child(dom: &Dom, f: TagFilterView, c: usize) -> bool {
    let kids = dom.spec_children()[c as int];
    exists|j: int|
        0 <= j < kids.len() && dom_nodes(dom)[kids[j] as int] is Element && !is_inline(
            f,
            dom_nodes(dom)[#[trigger] kids[j] as int],
        )
}

/// A block, unless it is missing or holds white space only.
pub open spec fn kept_block(t: Option<RichTextView>) -> Seq<RichTextView> {
    match t {
        Some(v) => if all_space(v.text) {
            seq![]
        } else {
            seq![v]
        },
        None => seq![],
    }
}

/// The blocks of the nodes `ids`, in document order: each run of inline
/// nodes is one block, each element that holds only inline content is one
/// block, and an element holding other elements is flattened into the
/// blocks of its children; descending at most `fuel` levels.
pub open spec fn flat(dom: &Dom, f: TagFilterView, ids: Seq<usize>, fuel: nat) -> Seq<RichTextView>
    decreases fuel, 0nat,
{
    if fuel == 0 {
        seq![]
    } else {
        flat_segs(dom, f, segments(dom_nodes(dom), f, ids), (fuel - 1) as nat)
    }
}

pub open spec fn flat_segs(dom: &Dom, f: TagFilterView, segs: Seq<(bool, Seq<usize>)>, fuel: nat) -> Seq<
    RichTextView,
>
    decreases fuel, segs.len() + 1,
{
    if segs.len() == 0 {
        seq![]
    } else {
        flat_segs(dom, f, segs.drop_last(), fuel) + seg_blocks(dom, f, segs.last(), fuel)
    }
}

pub open spec fn seg_blocks(dom: &Dom, f: TagFilterView, seg: (bool, Seq<usize>), fuel: nat) -> Seq<
    RichTextView,
>
    decreases fuel, 1nat,
{
    if seg.0 {
        kept_block(run_text(dom, f, seg.1))
    } else {
        let c = seg.1[0];
        if is_discarded(f, dom_nodes(dom)[c as int]) {
            seq![]
        } else if has_block_child(dom, f, c) {
            flat(dom, f, dom.spec_children()[c as int], fuel)
        } else {
            kept_block(rich_text_of(dom, c, f))
        }
    }
}

/// The position of the first heading among `ids`, or the length of `ids`.
pub open spec fn first_heading(d: Seq<DomNodeView>, heads: Seq<Seq<char>>, ids: Seq<usize>) -> int
    decreases ids.len(),
{
    if ids.len() == 0 {
        0
    } else {
        let i = first_heading(d, heads, ids.drop_last());
        if i < ids.len() - 1 {
            i
        } else if is_heading(d, heads, ids.last()) {
            ids.len() - 1
        } else {
            ids.len() as int
        }
    }
}

/// The position of the first `x` in `s`, or the length of `s`.
pub open spec fn first_index(s: Seq<usize>, x: usize) -> int
    decreases s.len(),
{
    if s.len() == 0 {
        0
    } else {
        let i = first_index(s.drop_last(), x);
        if i < s.len() - 1 {
            i
        } else if s.last() == x {
            s.len() - 1
        } else {
            s.len() as int
        }
    }
}

pub open spec fn heading_or_empty(h: Option<RichTextView>) -> RichTextView {
    match h {
        Some(t) => t,
        None => crate::text::empty_rich_text_view(),
    }
}

/// What ancestor `a` gives, `next` being its child on the way to the
/// target: the first heading among the children before `next`, if any, and
/// the blocks of the children before `next` (without that heading) and
/// after it. `next` itself is left out: it leads deeper.
pub open spec fn part_of(dom: &Dom, f: TagFilterView, heads: Seq<Seq<char>>, a: usize, next: usize) -> (
    Option<RichTextView>,
    Seq<RichTextView>,
    Seq<RichTextView>,
) {
    let n = dom.spec_len();
    let kids = dom.spec_children()[a as int];
    let pos = first_index(kids, next);
    let before = kids.take(pos);
    let rest = if pos < kids.len() {
        kids.subrange(pos + 1, kids.len() as int)
    } else {
        Seq::empty()
    };
    let h = first_heading(dom_nodes(dom), heads, before);
    if h < before.len() {
        (
            Some(heading_or_empty(rich_text_of(dom, before[h], f))),
            flat(dom, f, before.take(h), n) + flat(dom, f, before.subrange(h + 1, before.len() as int), n),
            flat(dom, f, rest, n),
        )
    } else {
        (None, flat(dom, f, before, n), flat(dom, f, rest, n))
    }
}

/// The entry of level 0: no heading, no content yet.
pub open spec fn level_zero() -> ContentHierarchyView {
    ContentHierarchyView {
        level: 0,
        heading: crate::text::empty_rich_text_view(),
        content_before: seq![],
        content_after: seq![],
    }
}

/// The levels that the first `i` ancestors on `path` give. An ancestor
/// with a heading opens the next level; one without joins the level above
/// it, its content before the path after that level's, its content after
/// the path before that level's.
pub open spec fn levels(
    dom: &Dom,
    f: TagFilterView,
    heads: Seq<Seq<char>>,
    path: Seq<usize>,
    i: int,
) -> Seq<ContentHierarchyView>
    decreases i,
{
    if i <= 0 {
        seq![level_zero()]
    } else {
        let prev = levels(dom, f, heads, path, i - 1);
        let (h, before, after) = part_of(dom, f, heads, path[i - 1], path[i]);
        match h {
            Some(t) => prev.push(
                ContentHierarchyView {
                    level: prev.len() as int,
                    heading: t,
                    content_before: before,
                    content_after: after,
                },
            ),
            None => {
                let last = prev.last();
                prev.update(
                    prev.len() - 1,
                    ContentHierarchyView {
                        content_before: last.content_before + before,
                        content_after: after + last.content_after,
                        ..last
                    },
                )
            },
        }
    }
}

/// The context of `target`, by heading level: level 0 holds what stands
/// before the first heading on the way down from the root, and each
/// ancestor with a heading opens one more level. Empty when the target
/// cannot be reached from the root.
pub open spec fn context_of(dom: &Dom, f: TagFilterView, heads: Seq<Seq<char>>, target: usize) -> Seq<
    ContentHierarchyView,
> {
    if dom.spec_len() == 0 {
        seq![]
    } else {
        match path_to(dom.spec_children(), dom.spec_root(), target, dom.spec_len()) {
            Some(path) => levels(dom, f, heads, path, path.len() - 1),
            None => seq![],
        }
    }
}

/// How many of the first `i` ancestors on `path` have a heading before the
/// way down.
pub open spec fn headed_count(dom: &Dom, f: TagFilterView, heads: Seq<Seq<char>>, path: Seq<usize>, i: int) -> nat
    decreases i,
{
    if i <= 0 {
        0
    } else {
        headed_count(dom, f, heads, path, i - 1) + if part_of(dom, f, heads, path[i - 1], path[i]).0 is Some {
            1nat
        } else {
            0nat
        }
    }
}

/// The levels are numbered 0, 1, 2, ... in order; there is one more than
/// there are ancestors with a heading, level 0 having none of its own; and
/// level `k > 0` has the heading of the `k`-th such ancestor.
pub proof fn lemma_levels_by_heading(
    dom: &Dom,
    f: TagFilterView,
    heads: Seq<Seq<char>>,
    path: Seq<usize>,
    i: int,
)
    requires
        0 <= i < path.len(),
    ensures
        levels(dom, f, heads, path, i).len() == 1 + headed_count(dom, f, heads, path, i),
        forall|k: int|
            0 <= k < levels(dom, f, heads, path, i).len() ==> #[trigger] levels(
                dom,
                f,
                heads,
                path,
                i,
            )[k].level == k,
        levels(dom, f, heads, path, i)[0].heading == crate::text::empty_rich_text_view(),
    decreases i,
{
    if i > 0 {
        lemma_levels_by_heading(dom, f, heads, path, i - 1);
        let prev = levels(dom, f, heads, path, i - 1);
        let cur = levels(dom, f, heads, path, i);
        assert forall|k: int| 0 <= k < cur.len() implies #[trigger] cur[k].level == k by {
            if k < prev.len() {
                assert(prev[k].level == k);
            }
        }
        if prev.len() == 1 {
            assert(prev[0].heading == crate::text::empty_rich_text_view());
        }
    }
}

pub open spec fn opt_ids_view(o: Option<Vec<usize>>) -> Option<Seq<usize>> {
    match o {
        Some(v) => Some(v@),
        None => None,
    }
}

fn path_to_exec(dom: &Dom, node: usize, target: usize, fuel: usize) -> (r: Option<Vec<usize>>)
    requires
        dom.wf(),
        node < dom.spec_len(),
    ensures
        opt_ids_view(r) == path_to(dom.spec_children(), node, target, fuel as nat),
        r matches Some(p) ==> forall|j: int| 0 <= j < p@.len() ==> #[trigger] p@[j] < dom.spec_len(),
    decreases fuel, 0nat,
{
    if node == target {
        let r = vec![node];
        assert(r@ =~= seq![node]);
        return Some(r);
    }
    if fuel == 0 {
        return None;
    }
    match path_among_exec(dom, dom.get_child_ids(node), target, fuel - 1) {
        Some(p) => {
            let mut r = vec![node];
            let mut p = p;
            let ghost pv = p@;
            r.append(&mut p);
            assert(r@ =~= seq![node] + pv);
            Some(r)
        },
        None => None,
    }
}

fn path_among_exec(dom: &Dom, ids: &[usize], target: usize, fuel: usize) -> (r: Option<Vec<usize>>)
    requires
        dom.wf(),
        forall|j: int| 0 <= j < ids@.len() ==> #[trigger] ids@[j] < dom.spec_len(),
    ensures
        opt_ids_view(r) == path_among(dom.spec_children(), ids@, target, fuel as nat),
        r matches Some(p) ==> forall|j: int| 0 <= j < p@.len() ==> #[trigger] p@[j] < dom.spec_len(),
    decreases fuel, 2nat,
{
    let ghost ch = dom.spec_children();
    let mut cur: Option<Vec<usize>> = None;
    let mut k: usize = 0;
    assert(ids@.take(0) =~= Seq::<usize>::empty());
    while k < ids.len()
        invariant
            dom.wf(),
            ch == dom.spec_children(),
            forall|j: int| 0 <= j < ids@.len() ==> #[trigger] ids@[j] < dom.spec_len(),
            0 <= k <= ids@.len(),
            opt_ids_view(cur) == path_among(ch, ids@.take(k as int), target, fuel as nat),
            cur matches Some(p) ==> forall|j: int| 0 <= j < p@.len() ==> #[trigger] p@[j] < dom.spec_len(),
        decreases ids@.len() - k,
    {
        assert(ids@.take(k + 1).drop_last() =~= ids@.take(k as int));
        assert(ids@.take(k + 1).last() == ids@[k as int]);
        if cur.is_none() {
            cur = path_to_exec(dom, ids[k], target, fuel);
        }
        k += 1;
    }
    assert(ids@.take(k as int) =~= ids@);
    cur
}

pub open spec fn segs_view(v: Seq<(bool, Vec<usize>)>) -> Seq<(bool, Seq<usize>)> {
    v.map_values(|s: (bool, Vec<usize>)| (s.0, s.1@))
}

fn is_inline_exec(f: &TagFilter, n: &DomNode) -> (r: bool)
    ensures
        r == is_inline(f@, n@),
{
    match n {
        DomNode::Text { .. } => true,
        DomNode::Element { tag, .. } => f.inline_tags.contains(tag),
        DomNode::Other => false,
    }
}

fn segments_exec(dom: &Dom, f: &TagFilter, ids: &[usize]) -> (r: Vec<(bool, Vec<usize>)>)
    requires
        dom.wf(),
        forall|j: int| 0 <= j < ids@.len() ==> #[trigger] ids@[j] < dom.spec_len(),
    ensures
        segs_view(r@) == segments(dom_nodes(dom), f@, ids@),
        forall|a: int, b: int|
            0 <= a < r@.len() && 0 <= b < r@[a].1@.len() ==> #[trigger] r@[a].1@[b] < dom.spec_len(),
        forall|a: int| 0 <= a < r@.len() ==> (#[trigger] r@[a].1@).len() > 0,
{
    let ghost d = dom_nodes(dom);
    let mut r: Vec<(bool, Vec<usize>)> = Vec::new();
    let mut k: usize = 0;
    assert(segs_view(r@) =~= segments(d, f@, ids@.take(0)));
    while k < ids.len()
        invariant
            dom.wf(),
            d == dom_nodes(dom),
            forall|j: int| 0 <= j < ids@.len() ==> #[trigger] ids@[j] < dom.spec_len(),
            0 <= k <= ids@.len(),
            segs_view(r@) == segments(d, f@, ids@.take(k as int)),
            forall|a: int, b: int|
                0 <= a < r@.len() && 0 <= b < r@[a].1@.len() ==> #[trigger] r@[a].1@[b]
                    < dom.spec_len(),
            forall|a: int| 0 <= a < r@.len() ==> (#[trigger] r@[a].1@).len() > 0,
        decreases ids@.len() - k,
    {
        let c = ids[k];
        assert(ids@.take(k + 1).drop_last() =~= ids@.take(k as int));
        assert(ids@.take(k + 1).last() == c);
        let node = dom.get_node(c);
        assert(node@ == d[c as int]);
        let ghost before = segs_view(r@);
        let ghost rb = r@;
        if is_inline_exec(f, node) {
            let n = r.len();
            if n > 0 && r[n - 1].0 {
                let mut last = r.pop().unwrap();
                let ghost lv = last.1@;
                last.1.push(c);
                r.push(last);
                assert(segs_view(r@) =~= before.update(before.len() - 1, (true, lv.push(c))));
            } else {
                let one = vec![c];
                assert(one@ =~= seq![c]);
                r.push((true, one));
                assert(segs_view(r@) =~= before.push((true, seq![c])));
            }
        } else if matches!(node, DomNode::Element { .. }) {
            let one = vec![c];
            assert(one@ =~= seq![c]);
            r.push((false, one));
            assert(segs_view(r@) =~= before.push((false, seq![c])));
        }
        k += 1;
        assert forall|a: int, b: int|
            0 <= a < r@.len() && 0 <= b < r@[a].1@.len() implies #[trigger] r@[a].1@[b]
                < dom.spec_len() by {
            if a < rb.len() - 1 || (a == rb.len() - 1 && b < rb[a].1@.len()) {
                assert(r@[a].1@[b] == rb[a].1@[b]);
            }
        }
    }
    assert(ids@.take(k as int) =~= ids@);
    r
}

fn run_text_exec(dom: &Dom, f: &TagFilter, ids: &[usize]) -> (r: Option<RichText>)
    requires
        dom.wf(),
        forall|j: int| 0 <= j < ids@.len() ==> #[trigger] ids@[j] < dom.spec_len(),
    ensures
        opt_view(r) == run_text(dom, f@, ids@),
{
    let root = RichTextElement { tag: String::new(), start: 0, end: 0, attrs: Vec::new() };
    let acc = RichText { text: String::new(), element: SimpleTree::new(root) };
    proof {
        let start = RichTextView {
            text: Seq::empty(),
            root: 0,
            nodes: seq![ElementView { tag: Seq::empty(), start: 0, end: 0, attrs: Seq::empty() }],
            children: seq![Seq::empty()],
        };
        assert(root@.attrs =~= Seq::<(Seq<char>, Seq<char>)>::empty());
        assert(acc@.nodes =~= start.nodes);
        assert(acc@.text =~= start.text);
        assert(acc@ == start);
    }
    match absorb_children(dom, f, ids, dom.len(), 0, acc) {
        Some(mut t) => {
            let len = t.text.as_str().unicode_len();
            if len < usize::MAX {
                let ghost before = t@;
                t.element.get_root_mut().end = len;
                assert(t@.nodes =~= before.nodes.update(
                    0,
                    ElementView { end: before.text.len() as int, ..before.nodes[0] },
                ));
                Some(t)
            } else {
                None
            }
        },
        None => None,
    }
}

fn all_space_exec(s: &String) -> (r: bool)
    ensures
        r == all_space(s@),
{
    let t = s.as_str();
    let n = t.unicode_len();
    let mut i: usize = 0;
    while i < n
        invariant
            n == s@.len(),
            t@ == s@,
            0 <= i <= n,
            forall|k: int| 0 <= k < i ==> crate::attr::is_space(#[trigger] s@[k]),
        decreases n - i,
    {
        let c = t.get_char(i);
        if !(('\u{9}' <= c && c <= '\u{d}') || c == ' ' || c == '\u{85}' || c == '\u{a0}' || c
            == '\u{1680}' || ('\u{2000}' <= c && c <= '\u{200a}') || c == '\u{2028}' || c
            == '\u{2029}' || c == '\u{202f}' || c == '\u{205f}' || c == '\u{3000}') {
            return false;
        }
        i += 1;
    }
    true
}

fn is_discarded_exec(f: &TagFilter, n: &DomNode) -> (r: bool)
    ensures
        r == is_discarded(f@, n@),
{
    match n {
        DomNode::Element { tag, .. } => matches!(f.classify(tag), TagClass::Discard),
        _ => false,
    }
}

fn is_heading_exec(dom: &Dom, heads: &Vec<String>, c: usize) -> (r: bool)
    requires
        c < dom.spec_len(),
    ensures
        r == is_heading(dom_nodes(dom), strings_view(heads@), c),
{
    let node = dom.get_node(c);
    assert(node@ == dom_nodes(dom)[c as int]);
    match node {
        DomNode::Element { tag, .. } => contains_str(heads, tag),
        _ => false,
    }
}

fn has_block_child_exec(dom: &Dom, f: &TagFilter, c: usize) -> (r: bool)
    requires
        dom.wf(),
        c < dom.spec_len(),
    ensures
        r == has_block_child(dom, f@, c),
{
    let kids = dom.get_child_ids(c);
    let ghost d = dom_nodes(dom);
    let mut j: usize = 0;
    while j < kids.len()
        invariant
            dom.wf(),
            d == dom_nodes(dom),
            c < dom.spec_len(),
            kids@ == dom.spec_children()[c as int],
            0 <= j <= kids@.len(),
            forall|i: int|
                0 <= i < j ==> !(d[kids@[i] as int] is Element && !is_inline(f@, d[#[trigger] kids@[i] as int])),
        decreases kids@.len() - j,
    {
        assert(dom.spec_children()[c as int][j as int] < dom.spec_len());
        let node = dom.get_node(kids[j]);
        assert(node@ == d[kids@[j as int] as int]);
        if matches!(node, DomNode::Element { .. }) && !is_inline_exec(f, node) {
            return true;
        }
        j += 1;
    }
    false
}

fn push_kept(out: &mut Vec<RichText>, t: Option<RichText>)
    ensures
        rich_texts_view(final(out)@) == rich_texts_view(old(out)@) + kept_block(opt_view(t)),
{
    let ghost before = rich_texts_view(out@);
    match t {
        Some(v) => {
            if !all_space_exec(&v.text) {
                let ghost vv = v@;
                out.push(v);
                assert(rich_texts_view(out@) =~= before + seq![vv]);
            } else {
                assert(rich_texts_view(out@) =~= before + Seq::<RichTextView>::empty());
            }
        },
        None => {
            assert(rich_texts_view(out@) =~= before + Seq::<RichTextView>::empty());
        },
    }
}

/// The blocks of the nodes `ids`; segments are cut by the loop of
/// `segments_exec`, or by the recursion of `segments_recur` when `recur`
/// holds.
fn flat_blocks(dom: &Dom, f: &TagFilter, ids: &[usize], fuel: usize, recur: bool) -> (r: Vec<RichText>)
    requires
        dom.wf(),
        forall|j: int| 0 <= j < ids@.len() ==> #[trigger] ids@[j] < dom.spec_len(),
    ensures
        rich_texts_view(r@) == flat(dom, f@, ids@, fuel as nat),
    decreases fuel,
{
    let mut out: Vec<RichText> = Vec::new();
    if fuel == 0 {
        assert(rich_texts_view(out@) =~= Seq::<RichTextView>::empty());
        return out;
    }
    let segs = if recur {
        assert(ids@.take(ids@.len() as int) =~= ids@);
        segments_recur(dom, f, ids, ids.len())
    } else {
        segments_exec(dom, f, ids)
    };
    let ghost sv = segs_view(segs@);
    let ghost g = (fuel - 1) as nat;
    let mut k: usize = 0;
    assert(rich_texts_view(out@) =~= flat_segs(dom, f@, sv.take(0), g));
    while k < segs.len()
        invariant
            dom.wf(),
            fuel > 0,
            g == fuel - 1,
            sv == segs_view(segs@),
            forall|a: int, b: int|
                0 <= a < segs@.len() && 0 <= b < segs@[a].1@.len() ==> #[trigger] segs@[a].1@[b]
                    < dom.spec_len(),
            forall|a: int| 0 <= a < segs@.len() ==> (#[trigger] segs@[a].1@).len() > 0,
            0 <= k <= segs@.len(),
            rich_texts_view(out@) == flat_segs(dom, f@, sv.take(k as int), g),
        decreases segs@.len() - k,
    {
        assert(sv.take(k + 1).drop_last() =~= sv.take(k as int));
        assert(sv.take(k + 1).last() == sv[k as int]);
        let seg = &segs[k];
        let ghost before = rich_texts_view(out@);
        assert(sv[k as int] == (seg.0, seg.1@));
        if seg.0 {
            assert forall|j: int| 0 <= j < seg.1@.len() implies #[trigger] seg.1@[j] < dom.spec_len() by {
                assert(segs@[k as int].1@[j] < dom.spec_len());
            }
            let t = run_text_exec(dom, f, seg.1.as_slice());
            push_kept(&mut out, t);
            assert(rich_texts_view(out@) == before + seg_blocks(dom, f@, sv[k as int], g));
        } else {
            let c = seg.1[0];
            assert(segs@[k as int].1@[0] < dom.spec_len());
            let node = dom.get_node(c);
            assert(node@ == dom_nodes(dom)[c as int]);
            if is_discarded_exec(f, node) {
                assert(rich_texts_view(out@) =~= before + Seq::<RichTextView>::empty());
                assert(rich_texts_view(out@) == before + seg_blocks(dom, f@, sv[k as int], g));
            } else if has_block_child_exec(dom, f, c) {
                let kids = dom.get_child_ids(c);
                assert forall|j: int| 0 <= j < kids@.len() implies #[trigger] kids@[j] < dom.spec_len() by {
                    assert(dom.spec_children()[c as int][j] < dom.spec_len());
                }
                let mut sub = flat_blocks(dom, f, kids, fuel - 1, recur);
                let ghost sb = rich_texts_view(sub@);
                let ghost ob = out@;
                let ghost subv = sub@;
                out.append(&mut sub);
                assert(rich_texts_view(out@) =~= rich_texts_view(ob) + rich_texts_view(subv));
                assert(rich_texts_view(out@) == before + seg_blocks(dom, f@, sv[k as int], g));
            } else {
                let t = get_rich_text(dom, c, f);
                push_kept(&mut out, t);
                assert(rich_texts_view(out@) == before + seg_blocks(dom, f@, sv[k as int], g));
            }
        }
        assert(rich_texts_view(out@) == before + seg_blocks(dom, f@, sv[k as int], g));
        assert(flat_segs(dom, f@, sv.take(k + 1), g) == flat_segs(dom, f@, sv.take(k as int), g)
            + seg_blocks(dom, f@, sv[k as int], g));
        k += 1;
    }
    assert(sv.take(k as int) =~= sv);
    out
}

/// The segments of `ids[..n]` by direct recursion; gives exactly what the
/// loop of `segments_exec` gives.
pub fn segments_recur(dom: &Dom, f: &TagFilter, ids: &[usize], n: usize) -> (r: Vec<(bool, Vec<usize>)>)
    requires
        dom.wf(),
        n <= ids@.len(),
        forall|j: int| 0 <= j < ids@.len() ==> #[trigger] ids@[j] < dom.spec_len(),
    ensures
        segs_view(r@) == segments(dom_nodes(dom), f@, ids@.take(n as int)),
        forall|a: int, b: int|
            0 <= a < r@.len() && 0 <= b < r@[a].1@.len() ==> #[trigger] r@[a].1@[b] < dom.spec_len(),
        forall|a: int| 0 <= a < r@.len() ==> (#[trigger] r@[a].1@).len() > 0,
    decreases n,
{
    let ghost d = dom_nodes(dom);
    if n == 0 {
        let r: Vec<(bool, Vec<usize>)> = Vec::new();
        assert(ids@.take(0) =~= Seq::<usize>::empty());
        assert(segs_view(r@) =~= Seq::<(bool, Seq<usize>)>::empty());
        return r;
    }
    let mut r = segments_recur(dom, f, ids, n - 1);
    let c = ids[n - 1];
    assert(ids@.take(n as int).drop_last() =~= ids@.take(n - 1));
    assert(ids@.take(n as int).last() == c);
    let node = dom.get_node(c);
    assert(node@ == d[c as int]);
    let ghost before = segs_view(r@);
    let ghost rb = r@;
    if is_inline_exec(f, node) {
        let len = r.len();
        if len > 0 && r[len - 1].0 {
            let mut last = r.pop().unwrap();
            let ghost lv = last.1@;
            last.1.push(c);
            r.push(last);
            assert(segs_view(r@) =~= before.update(before.len() - 1, (true, lv.push(c))));
        } else {
            let one = vec![c];
            assert(one@ =~= seq![c]);
            r.push((true, one));
            assert(segs_view(r@) =~= before.push((true, seq![c])));
        }
    } else if matches!(node, DomNode::Element { .. }) {
        let one = vec![c];
        assert(one@ =~= seq![c]);
        r.push((false, one));
        assert(segs_view(r@) =~= before.push((false, seq![c])));
    }
    assert forall|a: int, b: int|
        0 <= a < r@.len() && 0 <= b < r@[a].1@.len() implies #[trigger] r@[a].1@[b]
            < dom.spec_len() by {
        if a < rb.len() - 1 || (a == rb.len() - 1 && b < rb[a].1@.len()) {
            assert(r@[a].1@[b] == rb[a].1@[b]);
        }
    }
    r
}

/// The blocks of the children of `node`, segments cut in a loop.
pub fn flatten_node(dom: &Dom, f: &TagFilter, node: usize) -> (r: Vec<RichText>)
    requires
        dom.wf(),
        node < dom.spec_len(),
    ensures
        rich_texts_view(r@) == flat(dom, f@, dom.spec_children()[node as int], dom.spec_len()),
{
    let ids = dom.get_child_ids(node);
    assert forall|j: int| 0 <= j < ids@.len() implies #[trigger] ids@[j] < dom.spec_len() by {
        assert(dom.spec_children()[node as int][j] < dom.spec_len());
    }
    flat_blocks(dom, f, ids, dom.len(), false)
}

/// The blocks of the children of `node`, segments cut by recursion; the
/// same as `flatten_node` gives.
pub fn flatten_node_recur(dom: &Dom, f: &TagFilter, node: usize) -> (r: Vec<RichText>)
    requires
        dom.wf(),
        node < dom.spec_len(),
    ensures
        rich_texts_view(r@) == flat(dom, f@, dom.spec_children()[node as int], dom.spec_len()),
{
    let ids = dom.get_child_ids(node);
    assert forall|j: int| 0 <= j < ids@.len() implies #[trigger] ids@[j] < dom.spec_len() by {
        assert(dom.spec_children()[node as int][j] < dom.spec_len());
    }
    flat_blocks(dom, f, ids, dom.len(), true)
}

/// The tags that context extraction merges into runs of inline content.
pub open spec fn context_inline_tags() -> Seq<Seq<char>> {
    seq![
        "a"@, "abbr"@, "b"@, "br"@, "cite"@, "code"@, "em"@, "i"@, "mark"@, "q"@, "s"@, "small"@,
        "span"@, "strong"@, "sub"@, "sup"@, "time"@, "u"@,
    ]
}

/// Finds the headings and the content around a target element.
pub struct ContextExtractor {
    /// Tags of the elements that count as headings.
    pub heading_tags: Vec<String>,
    /// How the text of headings and content blocks is extracted.
    pub filter: TagFilter,
}

fn first_index_exec(s: &[usize], x: usize) -> (r: usize)
    ensures
        r as int == first_index(s@, x),
        r <= s@.len(),
{
    let mut i: usize = 0;
    while i < s.len()
        invariant
            0 <= i <= s@.len(),
            first_index(s@.take(i as int), x) == i,
        decreases s@.len() - i,
    {
        assert(s@.take(i + 1).drop_last() =~= s@.take(i as int));
        if s[i] == x {
            proof {
                lemma_first_index_found(s@, x, i as int);
            }
            return i;
        }
        i += 1;
    }
    assert(s@.take(i as int) =~= s@);
    i
}

proof fn lemma_first_index_found(s: Seq<usize>, x: usize, i: int)
    requires
        0 <= i < s.len(),
        s[i] == x,
        first_index(s.take(i), x) == i,
    ensures
        first_index(s, x) == i,
    decreases s.len(),
{
    if i < s.len() - 1 {
        assert(s.drop_last().take(i) =~= s.take(i));
        lemma_first_index_found(s.drop_last(), x, i);
    } else {
        assert(s.take(i) =~= s.drop_last());
    }
}

fn first_heading_exec(dom: &Dom, heads: &Vec<String>, ids: &[usize]) -> (r: usize)
    requires
        forall|j: int| 0 <= j < ids@.len() ==> #[trigger] ids@[j] < dom.spec_len(),
    ensures
        r as int == first_heading(dom_nodes(dom), strings_view(heads@), ids@),
        r <= ids@.len(),
{
    let ghost d = dom_nodes(dom);
    let ghost hs = strings_view(heads@);
    let mut i: usize = 0;
    while i < ids.len()
        invariant
            d == dom_nodes(dom),
            hs == strings_view(heads@),
            forall|j: int| 0 <= j < ids@.len() ==> #[trigger] ids@[j] < dom.spec_len(),
            0 <= i <= ids@.len(),
            first_heading(d, hs, ids@.take(i as int)) == i,
        decreases ids@.len() - i,
    {
        assert(ids@.take(i + 1).drop_last() =~= ids@.take(i as int));
        if is_heading_exec(dom, heads, ids[i]) {
            proof {
                lemma_first_heading_found(d, hs, ids@, i as int);
            }
            return i;
        }
        i += 1;
    }
    assert(ids@.take(i as int) =~= ids@);
    i
}

proof fn lemma_first_heading_found(d: Seq<DomNodeView>, hs: Seq<Seq<char>>, s: Seq<usize>, i: int)
    requires
        0 <= i < s.len(),
        is_heading(d, hs, s[i]),
        first_heading(d, hs, s.take(i)) == i,
    ensures
        first_heading(d, hs, s) == i,
    decreases s.len(),
{
    if i < s.len() - 1 {
        assert(s.drop_last().take(i) =~= s.take(i));
        lemma_first_heading_found(d, hs, s.drop_last(), i);
    } else {
        assert(s.take(i) =~= s.drop_last());
    }
}

impl ContextExtractor {
    /// Headings `h1` to `h6`; `div` elements unwrapped, the page head,
    /// scripts, styles and tables left out, every other element kept.
    pub fn default() -> (r: ContextExtractor)
        ensures
            strings_view(r.heading_tags@) == seq!["h1"@, "h2"@, "h3"@, "h4"@, "h5"@, "h6"@],
            r.filter@.ignored == set_of(seq!["div"@]),
            r.filter@.discard == set_of(seq!["head"@, "script"@, "style"@, "noscript"@, "table"@]),
            r.filter@.keep == set_of(Seq::<Seq<char>>::empty()),
            r.filter@.inline == set_of(context_inline_tags()),
            !r.filter@.only_inline,
    {
        let heading_tags = vec![
            "h1".to_owned(),
            "h2".to_owned(),
            "h3".to_owned(),
            "h4".to_owned(),
            "h5".to_owned(),
            "h6".to_owned(),
        ];
        assert(strings_view(heading_tags@) =~= seq!["h1"@, "h2"@, "h3"@, "h4"@, "h5"@, "h6"@]);
        let ignored_tags = vec!["div".to_owned()];
        assert(strings_view(ignored_tags@) =~= seq!["div"@]);
        let discard_tags = vec![
            "head".to_owned(),
            "script".to_owned(),
            "style".to_owned(),
            "noscript".to_owned(),
            "table".to_owned(),
        ];
        assert(strings_view(discard_tags@) =~= seq!["head"@, "script"@, "style"@, "noscript"@, "table"@]);
        let inline_tags = vec![
            "a".to_owned(),
            "abbr".to_owned(),
            "b".to_owned(),
            "br".to_owned(),
            "cite".to_owned(),
            "code".to_owned(),
            "em".to_owned(),
            "i".to_owned(),
            "mark".to_owned(),
            "q".to_owned(),
            "s".to_owned(),
            "small".to_owned(),
            "span".to_owned(),
            "strong".to_owned(),
            "sub".to_owned(),
            "sup".to_owned(),
            "time".to_owned(),
            "u".to_owned(),
        ];
        assert(strings_view(inline_tags@) =~= context_inline_tags());
        let keep_tags: Vec<String> = Vec::new();
        assert(strings_view(keep_tags@) =~= Seq::<Seq<char>>::empty());
        let filter = TagFilter::from_lists(ignored_tags, discard_tags, keep_tags, inline_tags, false);
        ContextExtractor { heading_tags, filter }
    }

    fn part(&self, dom: &Dom, a: usize, next: usize) -> (r: (Option<RichText>, Vec<RichText>, Vec<RichText>))
        requires
            dom.wf(),
            a < dom.spec_len(),
        ensures
            ({
                let (h, b, c) = part_of(dom, self.filter@, strings_view(self.heading_tags@), a, next);
                opt_view(r.0) == h && rich_texts_view(r.1@) == b && rich_texts_view(r.2@) == c
            }),
    {
        let n = dom.len();
        let kids = dom.get_child_ids(a);
        let ghost kv = kids@;
        assert forall|j: int| 0 <= j < kv.len() implies #[trigger] kv[j] < dom.spec_len() by {
            assert(dom.spec_children()[a as int][j] < dom.spec_len());
        }
        let pos = first_index_exec(kids, next);
        let before_ids = kids.split_at(pos).0;
        assert(before_ids@ =~= kv.take(pos as int));
        let after_ids: &[usize] = if pos < kids.len() {
            kids.split_at(pos + 1).1
        } else {
            kids.split_at(pos).1
        };
        proof {
            if pos < kv.len() {
                assert(after_ids@ =~= kv.subrange(pos + 1, kv.len() as int));
            } else {
                assert(after_ids@ =~= Seq::<usize>::empty());
            }
        }
        let after = flat_blocks(dom, &self.filter, after_ids, n, false);
        let h = first_heading_exec(dom, &self.heading_tags, before_ids);
        if h < before_ids.len() {
            let (front, back) = before_ids.split_at(h);
            let back_rest = back.split_at(1).1;
            assert(front@ =~= before_ids@.take(h as int));
            assert(back_rest@ =~= before_ids@.subrange(h + 1, before_ids@.len() as int));
            let heading = match get_rich_text(dom, before_ids[h], &self.filter) {
                Some(t) => t,
                None => RichText::empty(),
            };
            let mut b1 = flat_blocks(dom, &self.filter, front, n, false);
            let mut b2 = flat_blocks(dom, &self.filter, back_rest, n, false);
            let ghost v1 = b1@;
            let ghost v2 = b2@;
            b1.append(&mut b2);
            assert(rich_texts_view(b1@) =~= rich_texts_view(v1) + rich_texts_view(v2));
            (Some(heading), b1, after)
        } else {
            let b = flat_blocks(dom, &self.filter, before_ids, n, false);
            (None, b, after)
        }
    }

    /// The headings and content around `target`, by heading level: level 0
    /// holds what stands before the first heading on the way down from the
    /// root, and each ancestor with a heading before the way down opens the
    /// next level.
    pub fn extract_context(&self, dom: &Dom, target: usize) -> (r: Vec<ContentHierarchy>)
        requires
            dom.wf(),
        ensures
            hierarchies_view(r@) == context_of(
                dom,
                self.filter@,
                strings_view(self.heading_tags@),
                target,
            ),
    {
        let mut r: Vec<ContentHierarchy> = Vec::new();
        if dom.len() == 0 {
            assert(hierarchies_view(r@) =~= context_of(dom, self.filter@, strings_view(self.heading_tags@), target)) by {
                assert(dom.spec_len() == 0);
            }
            return r;
        }
        let ghost f = self.filter@;
        let ghost heads = strings_view(self.heading_tags@);
        match path_to_exec(dom, dom.get_root_id(), target, dom.len()) {
            Some(path) => {
                let n = path.len();
                r.push(ContentHierarchy {
                    level: 0,
                    heading: RichText::empty(),
                    content_before: Vec::new(),
                    content_after: Vec::new(),
                });
                assert(hierarchies_view(r@) =~= levels(dom, f, heads, path@, 0)) by {
                    assert(r@[0]@.content_before =~= Seq::<RichTextView>::empty());
                    assert(r@[0]@.content_after =~= Seq::<RichTextView>::empty());
                }
                let mut i: usize = 0;
                while i < n - 1
                    invariant
                        dom.wf(),
                        f == self.filter@,
                        heads == strings_view(self.heading_tags@),
                        n == path@.len(),
                        n >= 1,
                        forall|j: int| 0 <= j < path@.len() ==> #[trigger] path@[j] < dom.spec_len(),
                        0 <= i <= n - 1,
                        r@.len() >= 1,
                        r@.len() <= i + 1,
                        hierarchies_view(r@) == levels(dom, f, heads, path@, i as int),
                    decreases n - 1 - i,
                {
                    let ghost prev = hierarchies_view(r@);
                    let (h, mut before, mut after) = self.part(dom, path[i], path[i + 1]);
                    match h {
                        Some(t) => {
                            let level = r.len();
                            let entry = ContentHierarchy {
                                level,
                                heading: t,
                                content_before: before,
                                content_after: after,
                            };
                            let ghost ev = entry@;
                            r.push(entry);
                            assert(hierarchies_view(r@) =~= prev.push(ev));
                        },
                        None => {
                            let last = r.pop().unwrap();
                            let ghost lv = last@;
                            let ContentHierarchy { level, heading, content_before, content_after } = last;
                            let mut cb = content_before;
                            let ghost cbv = cb@;
                            let ghost bv = before@;
                            cb.append(&mut before);
                            assert(rich_texts_view(cb@) =~= rich_texts_view(cbv) + rich_texts_view(bv));
                            let mut ca = content_after;
                            let ghost cav = ca@;
                            let ghost av = after@;
                            after.append(&mut ca);
                            assert(rich_texts_view(after@) =~= rich_texts_view(av) + rich_texts_view(cav));
                            let entry = ContentHierarchy {
                                level,
                                heading,
                                content_before: cb,
                                content_after: after,
                            };
                            let ghost ev = entry@;
                            r.push(entry);
                            assert(hierarchies_view(r@) =~= prev.update(prev.len() - 1, ev));
                        },
                    }
                    i += 1;
                }
                r
            },
            None => {
                assert(hierarchies_view(r@) =~= Seq::<ContentHierarchyView>::empty());
                r
            },
        }
    }
}

} // verus!
