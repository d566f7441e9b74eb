use vstd::prelude::*;

use crate::dom::{dom_nodes, Dom, DomNode, DomNodeView};
use crate::richtext::{
    absorb, absorb_all, attach, attach_exec, attach_without_root, classify, extraction, fits,
    is_fragment, lemma_far_offset_fails, opt_view, rich_text_of, root_element, root_element_exec,
    TagClass, TagFilter, TagFilterView,
};
use crate::text::{ElementView, RichText, RichTextView};
use crate::tree::SimpleTree;

verus! {

/// What the children `ids[k..]` contribute to `acc`, one after the other.
pub open spec fn absorb_from(
    d: Seq<DomNodeView>,
    ch: Seq<Seq<usize>>,
    f: TagFilterView,
    ids: Seq<usize>,
    k: int,
    fuel: nat,
    offset: int,
    acc: RichTextView,
) -> Option<RichTextView>
    decreases ids.len() - k,
{
    if k < 0 || k >= ids.len() {
        Some(acc)
    } else {
        match absorb(d, ch, f, ids[k], fuel, offset, acc) {
            Some(a) => absorb_from(d, ch, f, ids, k + 1, fuel, offset, a),
            None => None,
        }
    }
}

proof fn lemma_absorb_split(
    d: Seq<DomNodeView>,
    ch: Seq<Seq<usize>>,
    f: TagFilterView,
    ids: Seq<usize>,
    k: int,
    fuel: nat,
    offset: int,
    start: RichTextView,
)
    requires
        0 <= k <= ids.len(),
    ensures
        absorb_all(d, ch, f, ids, fuel, offset, start) == match absorb_all(
            d,
            ch,
            f,
            ids.take(k),
            fuel,
            offset,
            start,
        ) {
            Some(a) => absorb_from(d, ch, f, ids, k, fuel, offset, a),
            None => None,
        },
    decreases ids.len() - k,
{
    if k == ids.len() {
        assert(ids.take(k) =~= ids);
    } else {
        lemma_absorb_split(d, ch, f, ids, k + 1, fuel, offset, start);
        assert(ids.take(k + 1).drop_last() =~= ids.take(k));
        assert(ids.take(k + 1).last() == ids[k]);
    }
}

/// The fragment completed: the root element made to end where the text
/// ends, `None` when that position cannot be counted in `usize`.
pub open spec fn finish(r: Option<RichTextView>, offset: int) -> Option<RichTextView> {
    match r {
        Some(t) => if offset + t.text.len() < usize::MAX {
            Some(
                RichTextView {
                    nodes: t.nodes.update(0, ElementView { end: offset + t.text.len(), ..t.nodes[0] }),
                    ..t
                },
            )
        } else {
            None
        },
        None => None,
    }
}

/// A node whose children are being walked, with the rich text built so far.
pub struct FrameView {
    pub kids: Seq<usize>,
    pub k: int,
    pub fuel: nat,
    pub offset: int,
    pub acc: RichTextView,
    pub drop_root: bool,
}

pub open spec fn frame_result(
    d: Seq<DomNodeView>,
    ch: Seq<Seq<usize>>,
    f: TagFilterView,
    fr: FrameView,
    acc: Option<RichTextView>,
) -> Option<RichTextView> {
    finish(
        match acc {
            Some(a) => absorb_from(d, ch, f, fr.kids, fr.k, fr.fuel, fr.offset, a),
            None => None,
        },
        fr.offset,
    )
}

pub open spec fn attach_result(acc: RichTextView, sub: Option<RichTextView>, drop_root: bool) -> Option<
    RichTextView,
> {
    match sub {
        Some(s) => {
            let r = if drop_root {
                attach_without_root(acc, s)
            } else {
                attach(acc, s)
            };
            if fits(r) {
                Some(r)
            } else {
                None
            }
        },
        None => None,
    }
}

/// The final result, once frame `n` has given `res`: each frame below takes
/// in what the one above gave and walks the rest of its children.
pub open spec fn unwind(
    d: Seq<DomNodeView>,
    ch: Seq<Seq<usize>>,
    f: TagFilterView,
    stack: Seq<FrameView>,
    n: int,
    res: Option<RichTextView>,
) -> Option<RichTextView>
    decreases n,
{
    if n <= 0 {
        res
    } else {
        let p = stack[n - 1];
        unwind(d, ch, f, stack, n - 1, frame_result(d, ch, f, p, attach_result(p.acc, res, stack[n].drop_root)))
    }
}

pub open spec fn resume(d: Seq<DomNodeView>, ch: Seq<Seq<usize>>, f: TagFilterView, stack: Seq<FrameView>) -> Option<
    RichTextView,
> {
    let top = stack.len() - 1;
    unwind(d, ch, f, stack, top, frame_result(d, ch, f, stack[top], Some(stack[top].acc)))
}

proof fn lemma_unwind_none(
    d: Seq<DomNodeView>,
    ch: Seq<Seq<usize>>,
    f: TagFilterView,
    stack: Seq<FrameView>,
    n: int,
)
    ensures
        unwind(d, ch, f, stack, n, None) is None,
    decreases n,
{
    if n > 0 {
        lemma_unwind_none(d, ch, f, stack, n - 1);
    }
}

proof fn lemma_unwind_same(
    d: Seq<DomNodeView>,
    ch: Seq<Seq<usize>>,
    f: TagFilterView,
    s1: Seq<FrameView>,
    s2: Seq<FrameView>,
    n: int,
    res: Option<RichTextView>,
)
    requires
        0 <= n < s1.len(),
        n < s2.len(),
        s1.take(n) == s2.take(n),
        s1[n].drop_root == s2[n].drop_root,
    ensures
        unwind(d, ch, f, s1, n, res) == unwind(d, ch, f, s2, n, res),
    decreases n,
{
    if n > 0 {
        assert(s1[n - 1] == s1.take(n)[n - 1]);
        assert(s2[n - 1] == s2.take(n)[n - 1]);
        assert(s1.take(n - 1) =~= s1.take(n).take(n - 1));
        assert(s2.take(n - 1) =~= s2.take(n).take(n - 1));
        let p = s1[n - 1];
        lemma_unwind_same(
            d,
            ch,
            f,
            s1,
            s2,
            n - 1,
            frame_result(d, ch, f, p, attach_result(p.acc, res, s1[n].drop_root)),
        );
    }
}

/// The amount of walking left in the children `ids` with `fuel` levels.
pub open spec fn work(ch: Seq<Seq<usize>>, ids: Seq<usize>, fuel: nat) -> nat
    decreases fuel, ids.len(),
{
    if ids.len() == 0 {
        0
    } else {
        let c = ids[0];
        let below: nat = if fuel > 0 && 0 <= c < ch.len() {
            work(ch, ch[c as int], (fuel - 1) as nat)
        } else {
            0
        };
        2 + below + work(ch, ids.drop_first(), fuel)
    }
}

pub open spec fn stack_work(ch: Seq<Seq<usize>>, stack: Seq<FrameView>) -> nat
    decreases stack.len(),
{
    if stack.len() == 0 {
        0
    } else {
        let fr = stack.last();
        stack_work(ch, stack.drop_last()) + 1 + work(
            ch,
            fr.kids.subrange(fr.k, fr.kids.len() as int),
            fr.fuel,
        )
    }
}

struct Frame {
    node: usize,
    k: usize,
    fuel: usize,
    offset: usize,
    acc: RichText,
    drop_root: bool,
}

spec fn frame_view(ch: Seq<Seq<usize>>, fr: Frame) -> FrameView {
    FrameView {
        kids: ch[fr.node as int],
        k: fr.k as int,
        fuel: fr.fuel as nat,
        offset: fr.offset as int,
        acc: fr.acc@,
        drop_root: fr.drop_root,
    }
}

spec fn frames_view(ch: Seq<Seq<usize>>, s: Seq<Frame>) -> Seq<FrameView> {
    s.map_values(|fr: Frame| frame_view(ch, fr))
}

spec fn frame_ok(dom: &Dom, fr: Frame) -> bool {
    &&& fr.node < dom.spec_len()
    &&& fr.k <= dom.spec_children()[fr.node as int].len()
    &&& is_fragment(fr.acc)
}

fn finish_exec(t: RichText, offset: usize) -> (r: Option<RichText>)
    requires
        is_fragment(t),
    ensures
        opt_view(r) == finish(Some(t@), offset as int),
        r matches Some(x) ==> is_fragment(x),
{
    let mut t = t;
    let len = t.text.as_str().unicode_len();
    if len < usize::MAX - offset {
        let ghost before = t@;
        t.element.get_root_mut().end = offset + len;
        assert(t@.nodes =~= before.nodes.update(
            0,
            ElementView { end: offset + before.text.len(), ..before.nodes[0] },
        ));
        Some(t)
    } else {
        None
    }
}

proof fn lemma_stack_work_push(ch: Seq<Seq<usize>>, s: Seq<FrameView>, t: FrameView)
    ensures
        stack_work(ch, s.push(t)) == stack_work(ch, s) + 1 + work(
            ch,
            t.kids.subrange(t.k, t.kids.len() as int),
            t.fuel,
        ),
{
    assert(s.push(t).drop_last() =~= s);
}

proof fn lemma_work_step(ch: Seq<Seq<usize>>, kids: Seq<usize>, k: int, fuel: nat)
    requires
        0 <= k < kids.len(),
    ensures
        work(ch, kids.subrange(k, kids.len() as int), fuel) == 2 + (if fuel > 0 && 0 <= kids[k] < ch.len() {
            work(ch, ch[kids[k] as int], (fuel - 1) as nat)
        } else {
            0
        }) + work(ch, kids.subrange(k + 1, kids.len() as int), fuel),
{
    let s = kids.subrange(k, kids.len() as int);
    assert(s.drop_first() =~= kids.subrange(k + 1, kids.len() as int));
    assert(s[0] == kids[k]);
}

/// Extraction of node `id` with an explicit stack of the nodes whose
/// children are being walked, in place of recursion. It gives exactly what
/// `get_rich_text` gives.
#[verifier::rlimit(60)]
pub fn get_rich_text_iter(dom: &Dom, id: usize, f: &TagFilter) -> (r: Option<RichText>)
    requires
        dom.wf(),
        id < dom.spec_len(),
    ensures
        opt_view(r) == rich_text_of(dom, id, f@),
        r matches Some(t) ==> is_fragment(t),
{
    let ghost d = dom_nodes(dom);
    let ghost ch = dom.spec_children();
    let ghost whole = rich_text_of(dom, id, f@);
    let fuel0 = dom.len();
    let node = dom.get_node(id);
    assert(node@ == d[id as int]);
    let root = root_element_exec(f, node, 0);
    let ghost start = RichTextView {
        text: Seq::empty(),
        root: 0,
        nodes: seq![root_element(f@, d[id as int], 0)],
        children: seq![Seq::empty()],
    };
    let mut acc = RichText { text: String::new(), element: SimpleTree::new(root) };
    assert(acc@.nodes =~= start.nodes);
    assert(acc@.text =~= start.text);
    assert(acc@ == start);
    let class = match node {
        DomNode::Element { tag, .. } => f.classify(tag),
        _ => TagClass::Discard,
    };
    let walk = match node {
        DomNode::Element { .. } => !matches!(class, TagClass::Discard),
        _ => false,
    };
    if !walk {
        match node {
            DomNode::Text { text } => {
                if text.as_str().unicode_len() < usize::MAX {
                    acc.text = text.clone();
                    return finish_exec(acc, 0);
                } else {
                    return None;
                }
            },
            _ => {
                return finish_exec(acc, 0);
            },
        }
    }
    let first = Frame { node: id, k: 0, fuel: fuel0 - 1, offset: 0, acc, drop_root: false };
    proof {
        lemma_absorb_split(d, ch, f@, ch[id as int], 0, (fuel0 - 1) as nat, 0, start);
        assert(ch[id as int].take(0) =~= Seq::<usize>::empty());
    }
    let mut stack: Vec<Frame> = Vec::new();
    stack.push(first);
    assert(resume(d, ch, f@, frames_view(ch, stack@)) == whole);
    loop
        invariant
            dom.wf(),
            d == dom_nodes(dom),
            ch == dom.spec_children(),
            stack@.len() >= 1,
            forall|j: int| 0 <= j < stack@.len() ==> #[trigger] frame_ok(dom, stack@[j]),
            resume(d, ch, f@, frames_view(ch, stack@)) == whole,
            whole == rich_text_of(dom, id, f@),
        decreases stack_work(ch, frames_view(ch, stack@)),
    {
        let ghost s0 = frames_view(ch, stack@);
        let ghost n = stack@.len() - 1;
        assert(frame_ok(dom, stack@[n]));
        let mut top = stack.pop().unwrap();
        let ghost below = stack@;
        assert(frames_view(ch, below) =~= s0.drop_last());
        let kids = dom.get_child_ids(top.node);
        let ghost tv = frame_view(ch, top);
        if top.k < kids.len() {
            let c = kids[top.k];
            assert(ch[top.node as int][top.k as int] < dom.spec_len());
            proof {
                lemma_work_step(ch, tv.kids, tv.k, tv.fuel);
            }
            top.k = top.k + 1;
            let cnode = dom.get_node(c);
            assert(cnode@ == d[c as int]);
            match cnode {
                DomNode::Text { text } => {
                    let ta = top.acc.text.as_str().unicode_len();
                    let tb = text.as_str().unicode_len();
                    if tb >= usize::MAX - ta {
                        proof {
                            lemma_unwind_none(d, ch, f@, s0, n);
                        }
                        return None;
                    }
                    top.acc.text.append(text.as_str());
                    stack.push(top);
                    proof {
                        let s1 = frames_view(ch, stack@);
                        assert(s1 =~= s0.update(n, s1[n]));
                        assert(s1.take(n) =~= s0.take(n));
                        assert(s1 =~= frames_view(ch, below).push(s1[n]));
                        lemma_stack_work_push(ch, frames_view(ch, below), s1[n]);
                        lemma_stack_work_push(ch, frames_view(ch, below), tv);
                        lemma_unwind_same(d, ch, f@, s0, s1, n, frame_result(d, ch, f@, s1[n], Some(s1[n].acc)));
                    }
                },
                DomNode::Element { tag, .. } => {
                    let cc = f.classify(tag);
                    if matches!(cc, TagClass::Discard) {
                        stack.push(top);
                        proof {
                            let s1 = frames_view(ch, stack@);
                            assert(s1 =~= s0.update(n, s1[n]));
                            assert(s1.take(n) =~= s0.take(n));
                            assert(s1 =~= frames_view(ch, below).push(s1[n]));
                            lemma_stack_work_push(ch, frames_view(ch, below), s1[n]);
                            lemma_stack_work_push(ch, frames_view(ch, below), tv);
                            lemma_unwind_same(d, ch, f@, s0, s1, n, frame_result(d, ch, f@, s1[n], Some(s1[n].acc)));
                        }
                    } else {
                        if top.fuel == 0 {
                            proof {
                                lemma_unwind_none(d, ch, f@, s0, n);
                            }
                            return None;
                        }
                        let ta = top.acc.text.as_str().unicode_len();
                        if ta >= usize::MAX - top.offset {
                            proof {
                                lemma_far_offset_fails(d, ch, f@, c, top.offset + top.acc@.text.len(), top.fuel as nat);
                                lemma_unwind_none(d, ch, f@, s0, n);
                            }
                            return None;
                        }
                        let off = top.offset + ta;
                        let croot = root_element_exec(f, cnode, off);
                        let cacc = RichText { text: String::new(), element: SimpleTree::new(croot) };
                        let ghost cstart = RichTextView {
                            text: Seq::empty(),
                            root: 0,
                            nodes: seq![root_element(f@, d[c as int], off as int)],
                            children: seq![Seq::empty()],
                        };
                        assert(cacc@.nodes =~= cstart.nodes);
                        assert(cacc@.text =~= cstart.text);
                        assert(cacc@ == cstart);
                        let child = Frame {
                            node: c,
                            k: 0,
                            fuel: top.fuel - 1,
                            offset: off,
                            acc: cacc,
                            drop_root: matches!(cc, TagClass::DropWrapper),
                        };
                        proof {
                            lemma_absorb_split(d, ch, f@, ch[c as int], 0, (top.fuel - 1) as nat, off as int, cstart);
                            assert(ch[c as int].take(0) =~= Seq::<usize>::empty());
                            assert(ch[c as int].subrange(0, ch[c as int].len() as int) =~= ch[c as int]);
                        }
                        stack.push(top);
                        stack.push(child);
                        proof {
                            let s2 = frames_view(ch, stack@);
                            let s1 = s2.drop_last();
                            assert(s1 =~= s0.update(n, s1[n]));
                            assert(s1 =~= frames_view(ch, below).push(s1[n]));
                            assert(s2 =~= s1.push(s2[n + 1]));
                            lemma_stack_work_push(ch, frames_view(ch, below), s1[n]);
                            lemma_stack_work_push(ch, s1, s2[n + 1]);
                            lemma_stack_work_push(ch, frames_view(ch, below), tv);
                            let e = frame_result(d, ch, f@, s2[n + 1], Some(cstart));
                            assert(e == extraction(d, ch, f@, c, off as int, tv.fuel));
                            let x = frame_result(d, ch, f@, s1[n], attach_result(s1[n].acc, e, s2[n + 1].drop_root));
                            assert(s2.take(n) =~= s0.take(n));
                            lemma_unwind_same(d, ch, f@, s0, s2, n, x);
                        }
                    }
                },
                DomNode::Other => {
                    stack.push(top);
                    proof {
                        let s1 = frames_view(ch, stack@);
                        assert(s1 =~= s0.update(n, s1[n]));
                        assert(s1.take(n) =~= s0.take(n));
                        assert(s1 =~= frames_view(ch, below).push(s1[n]));
                        lemma_stack_work_push(ch, frames_view(ch, below), s1[n]);
                        lemma_stack_work_push(ch, frames_view(ch, below), tv);
                        lemma_unwind_same(d, ch, f@, s0, s1, n, frame_result(d, ch, f@, s1[n], Some(s1[n].acc)));
                    }
                },
            }
        } else {
            assert(tv.kids.subrange(tv.k, tv.kids.len() as int) =~= Seq::<usize>::empty());
            let drop_root = top.drop_root;
            let res = finish_exec(top.acc, top.offset);
            match res {
                None => {
                    proof {
                        lemma_unwind_none(d, ch, f@, s0, n);
                    }
                    return None;
                },
                Some(t) => {
                    if stack.len() == 0 {
                        return Some(t);
                    }
                    let ghost pn = n - 1;
                    assert(frame_ok(dom, stack@[pn]));
                    let mut parent = stack.pop().unwrap();
                    let ghost pv = frame_view(ch, parent);
                    let ok = attach_exec(&mut parent.acc, t, drop_root);
                    if !ok {
                        proof {
                            lemma_unwind_none(d, ch, f@, s0, pn);
                        }
                        return None;
                    }
                    stack.push(parent);
                    proof {
                        let s1 = frames_view(ch, stack@);
                        assert(s1.take(pn) =~= s0.take(pn));
                        assert(s1.drop_last() =~= s0.drop_last().drop_last());
                        let base = s1.drop_last();
                        assert(s1 =~= base.push(s1[pn]));
                        assert(frames_view(ch, below) =~= base.push(pv));
                        lemma_stack_work_push(ch, base, s1[pn]);
                        lemma_stack_work_push(ch, base, pv);
                        lemma_stack_work_push(ch, frames_view(ch, below), tv);
                        lemma_unwind_same(d, ch, f@, s0, s1, pn, frame_result(d, ch, f@, s1[pn], Some(s1[pn].acc)));
                    }
                },
            }
        }
    }
}

} // verus!
