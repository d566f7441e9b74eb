use vstd::prelude::*;

use crate::text::{ElementView, RichText, RichTextElement, RichTextView};

verus! {

/// The characters `a..b` of `s`, or nothing when that is no range of `s`.
pub open spec fn slice(s: Seq<char>, a: int, b: int) -> Seq<char> {
    if 0 <= a <= b <= s.len() {
        s.subrange(a, b)
    } else {
        Seq::empty()
    }
}

/// ` k="v"` for each attribute, in order.
pub open spec fn attrs_markup(attrs: Seq<(Seq<char>, Seq<char>)>) -> Seq<char>
    decreases attrs.len(),
{
    if attrs.len() == 0 {
        Seq::empty()
    } else {
        attrs_markup(attrs.drop_last()) + " "@ + attrs.last().0 + "=\""@ + attrs.last().1 + "\""@
    }
}

/// The opening tag of an element; nothing for an element without a tag.
pub open spec fn open_tag(e: ElementView) -> Seq<char> {
    if e.tag.len() == 0 {
        Seq::empty()
    } else {
        "<"@ + e.tag + attrs_markup(e.attrs) + ">"@
    }
}

pub open spec fn close_tag(e: ElementView) -> Seq<char> {
    if e.tag.len() == 0 {
        Seq::empty()
    } else {
        "</"@ + e.tag + ">"@
    }
}

/// Element `id` with its range of the text, its children's markup standing
/// in place of their ranges.
pub open spec fn render(t: RichTextView, id: usize, fuel: nat) -> Seq<char>
    decreases fuel, 0nat,
{
    if fuel == 0 {
        Seq::empty()
    } else {
        let e = t.nodes[id as int];
        open_tag(e) + render_parts(t, t.children[id as int], e.start, e.end, (fuel - 1) as nat)
            + close_tag(e)
    }
}

/// The text from `pos` to `end` with the children `ids` rendered in place.
pub open spec fn render_parts(t: RichTextView, ids: Seq<usize>, pos: int, end: int, fuel: nat) -> Seq<
    char,
>
    decreases fuel, ids.len() + 1,
{
    if ids.len() == 0 {
        slice(t.text, pos, end)
    } else {
        let e = t.nodes[ids[0] as int];
        slice(t.text, pos, e.start) + render(t, ids[0], fuel) + render_parts(
            t,
            ids.drop_first(),
            e.end,
            end,
            fuel,
        )
    }
}

/// The markup of a rich text: its text with the tags of its elements put
/// back around their ranges.
pub open spec fn markup_of(t: RichTextView) -> Seq<char> {
    if t.nodes.len() == 0 {
        t.text
    } else {
        render(t, t.root, t.nodes.len())
    }
}

fn push_slice(out: &mut String, s: &str, a: usize, b: usize)
    ensures
        final(out)@ == old(out)@ + slice(s@, a as int, b as int),
{
    let n = s.unicode_len();
    if a <= b && b <= n {
        out.append(s.substring_char(a, b));
    } else {
        assert(old(out)@ + slice(s@, a as int, b as int) =~= old(out)@);
    }
}

fn push_attrs(out: &mut String, attrs: &Vec<(String, String)>)
    ensures
        final(out)@ == old(out)@ + attrs_markup(crate::text::attrs_view(attrs@)),
{
    let ghost a = crate::text::attrs_view(attrs@);
    let mut i: usize = 0;
    assert(a.take(0) =~= Seq::<(Seq<char>, Seq<char>)>::empty());
    assert(out@ =~= old(out)@ + attrs_markup(a.take(0)));
    while i < attrs.len()
        invariant
            a == crate::text::attrs_view(attrs@),
            0 <= i <= attrs@.len(),
            out@ == old(out)@ + attrs_markup(a.take(i as int)),
        decreases attrs@.len() - i,
    {
        assert(a.take(i + 1).drop_last() =~= a.take(i as int));
        assert(a.take(i + 1).last() == a[i as int]);
        out.append(" ");
        out.append(attrs[i].0.as_str());
        out.append("=\"");
        out.append(attrs[i].1.as_str());
        out.append("\"");
        i += 1;
        proof {
            reveal_strlit(" ");
            reveal_strlit("=\"");
            reveal_strlit("\"");
        }
        assert(out@ =~= old(out)@ + attrs_markup(a.take(i as int)));
    }
    assert(a.take(i as int) =~= a);
}

fn push_open(out: &mut String, e: &RichTextElement)
    ensures
        final(out)@ == old(out)@ + open_tag(e@),
{
    proof {
        reveal_strlit("<");
        reveal_strlit(">");
    }
    if e.tag.as_str().unicode_len() > 0 {
        out.append("<");
        out.append(e.tag.as_str());
        push_attrs(out, &e.attrs);
        out.append(">");
    }
    assert(final(out)@ =~= old(out)@ + open_tag(e@));
}

fn push_close(out: &mut String, e: &RichTextElement)
    ensures
        final(out)@ == old(out)@ + close_tag(e@),
{
    proof {
        reveal_strlit("</");
        reveal_strlit(">");
    }
    if e.tag.as_str().unicode_len() > 0 {
        out.append("</");
        out.append(e.tag.as_str());
        out.append(">");
    }
    assert(final(out)@ =~= old(out)@ + close_tag(e@));
}

impl RichText {
    fn render_into(&self, id: usize, fuel: usize, out: &mut String)
        requires
            self.element.wf(),
            id < self.element.spec_len(),
        ensures
            final(out)@ == old(out)@ + render(self@, id, fuel as nat),
        decreases fuel, 0nat,
    {
        if fuel == 0 {
            assert(old(out)@ + render(self@, id, fuel as nat) =~= old(out)@);
            return ;
        }
        let ghost t = self@;
        let e = self.element.get_node(id);
        assert(e@ == t.nodes[id as int]);
        push_open(out, e);
        let ids = self.element.get_child_ids(id);
        self.render_parts_into(ids, e.start, e.end, fuel - 1, out);
        push_close(out, e);
        assert(final(out)@ =~= old(out)@ + render(t, id, fuel as nat));
    }

    fn render_parts_into(&self, ids: &[usize], pos: usize, end: usize, fuel: usize, out: &mut String)
        requires
            self.element.wf(),
            forall|j: int| 0 <= j < ids@.len() ==> #[trigger] ids@[j] < self.element.spec_len(),
        ensures
            final(out)@ == old(out)@ + render_parts(self@, ids@, pos as int, end as int, fuel as nat),
        decreases fuel, 1nat,
    {
        let ghost t = self@;
        let ghost whole = old(out)@ + render_parts(t, ids@, pos as int, end as int, fuel as nat);
        let mut pos = pos;
        let mut j: usize = 0;
        assert(ids@.subrange(0, ids@.len() as int) =~= ids@);
        while j < ids.len()
            invariant
                self.element.wf(),
                t == self@,
                forall|k: int| 0 <= k < ids@.len() ==> #[trigger] ids@[k] < self.element.spec_len(),
                0 <= j <= ids@.len(),
                whole == out@ + render_parts(
                    t,
                    ids@.subrange(j as int, ids@.len() as int),
                    pos as int,
                    end as int,
                    fuel as nat,
                ),
            decreases ids@.len() - j,
        {
            let c = ids[j];
            let ce = self.element.get_node(c);
            assert(ce@ == t.nodes[c as int]);
            let ghost rest = ids@.subrange(j as int, ids@.len() as int);
            assert(rest[0] == c);
            assert(rest.drop_first() =~= ids@.subrange(j + 1, ids@.len() as int));
            push_slice(out, self.text.as_str(), pos, ce.start);
            self.render_into(c, fuel, out);
            pos = ce.end;
            j += 1;
        }
        push_slice(out, self.text.as_str(), pos, end);
    }

    /// The markup of the rich text: its text with the tags of its elements,
    /// and their attributes, put back around their ranges. Elements without
    /// a tag add no markup.
    pub fn to_html(&self) -> (r: String)
        requires
            self.element.wf(),
        ensures
            r@ == markup_of(self@),
    {
        let mut out = String::new();
        if self.element.len() == 0 {
            out.append(self.text.as_str());
            assert(out@ =~= markup_of(self@));
            return out;
        }
        self.render_into(self.element.get_root_id(), self.element.len(), &mut out);
        assert(out@ =~= markup_of(self@));
        out
    }
}

} // verus!
