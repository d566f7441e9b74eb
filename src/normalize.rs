use vstd::prelude::*;

use crate::context::{rich_texts_view, ContentHierarchy, ContentHierarchyView};
use crate::table::{Cell, CellView, Row, RowView, Table, TableView};
use crate::text::{copy_attrs, ElementView, RichText, RichTextElement, RichTextView};
use crate::urls::{join, url_joined, url_parses};

verus! {

/// Whether attribute `key` of an element `tag` holds a link: `href` of `a`,
/// `src` of `img`. These are the only values that normalization rewrites;
/// URLs that stand in the text itself are left as they are.
pub open spec fn is_link_attr(tag: Seq<char>, key: Seq<char>) -> bool {
    (tag == "a"@ && key == "href"@) || (tag == "img"@ && key == "src"@)
}

/// The attribute with a link value resolved against `base`; a value that
/// does not resolve is kept.
pub open spec fn normalized_attr(base: Seq<char>, tag: Seq<char>, a: (Seq<char>, Seq<char>)) -> (
    Seq<char>,
    Seq<char>,
) {
    if is_link_attr(tag, a.0) {
        match url_joined(base, a.1) {
            Some(j) => (a.0, j),
            None => a,
        }
    } else {
        a
    }
}

pub open spec fn normalized_element(base: Seq<char>, e: ElementView) -> ElementView {
    ElementView {
        attrs: e.attrs.map_values(|a: (Seq<char>, Seq<char>)| normalized_attr(base, e.tag, a)),
        ..e
    }
}

/// The rich text with the links of its elements resolved against `base`.
pub open spec fn normalized_text(base: Seq<char>, t: RichTextView) -> RichTextView {
    RichTextView { nodes: t.nodes.map_values(|e: ElementView| normalized_element(base, e)), ..t }
}

pub open spec fn normalized_cell(base: Seq<char>, c: CellView) -> CellView {
    CellView { value: normalized_text(base, c.value), ..c }
}

pub open spec fn normalized_row(base: Seq<char>, r: RowView) -> RowView {
    RowView { cells: r.cells.map_values(|c: CellView| normalized_cell(base, c)), ..r }
}

pub open spec fn normalized_level(base: Seq<char>, h: ContentHierarchyView) -> ContentHierarchyView {
    ContentHierarchyView {
        heading: normalized_text(base, h.heading),
        content_before: h.content_before.map_values(|t: RichTextView| normalized_text(base, t)),
        content_after: h.content_after.map_values(|t: RichTextView| normalized_text(base, t)),
        ..h
    }
}

/// The table with the links in its cells and in its context
/// resolved against `base`.
pub open spec fn normalized_table(base: Seq<char>, t: TableView) -> TableView {
    TableView {
        rows: t.rows.map_values(|r: RowView| normalized_row(base, r)),
        context: t.context.map_values(|h: ContentHierarchyView| normalized_level(base, h)),
        ..t
    }
}

fn is_link_attr_exec(tag: &String, key: &String) -> (r: bool)
    ensures
        r == is_link_attr(tag@, key@),
{
    let a = "a".to_owned();
    let href = "href".to_owned();
    let img = "img".to_owned();
    let src = "src".to_owned();
    (*tag == a && *key == href) || (*tag == img && *key == src)
}

fn normalize_element(base: &str, e: &RichTextElement) -> (r: RichTextElement)
    requires
        url_parses(base@),
    ensures
        r@ == normalized_element(base@, e@),
{
    let mut attrs: Vec<(String, String)> = Vec::new();
    let mut i: usize = 0;
    while i < e.attrs.len()
        invariant
            url_parses(base@),
            0 <= i <= e.attrs@.len(),
            attrs@.len() == i,
            forall|k: int|
                0 <= k < i ==> (#[trigger] attrs@[k].0@, attrs@[k].1@) == normalized_attr(
                    base@,
                    e.tag@,
                    (e.attrs@[k].0@, e.attrs@[k].1@),
                ),
        decreases e.attrs@.len() - i,
    {
        let key = e.attrs[i].0.clone();
        let value = if is_link_attr_exec(&e.tag, &key) {
            match join(base, e.attrs[i].1.as_str()) {
                Some(j) => j,
                None => e.attrs[i].1.clone(),
            }
        } else {
            e.attrs[i].1.clone()
        };
        attrs.push((key, value));
        i += 1;
    }
    let r = RichTextElement { tag: e.tag.clone(), start: e.start, end: e.end, attrs };
    assert(r@.attrs =~= normalized_element(base@, e@).attrs);
    r
}

/// The rich text with the links of its elements resolved against `base`.
pub fn normalize_rich_text(base: &str, t: &RichText) -> (r: RichText)
    requires
        url_parses(base@),
    ensures
        r@ == normalized_text(base@, t@),
{
    let items = t.element.iter();
    let mut nodes: Vec<RichTextElement> = Vec::new();
    let mut i: usize = 0;
    while i < items.len()
        invariant
            url_parses(base@),
            items@ == t.element.spec_nodes(),
            0 <= i <= items@.len(),
            nodes@.len() == i,
            forall|k: int| 0 <= k < i ==> #[trigger] nodes@[k]@ == normalized_element(base@, items@[k]@),
        decreases items@.len() - i,
    {
        nodes.push(normalize_element(base, &items[i]));
        i += 1;
    }
    let element = t.element.with_nodes(nodes);
    let r = RichText { text: t.text.clone(), element };
    assert(r@.nodes =~= normalized_text(base@, t@).nodes);
    r
}

fn normalize_texts(base: &str, v: &Vec<RichText>) -> (r: Vec<RichText>)
    requires
        url_parses(base@),
    ensures
        rich_texts_view(r@) == rich_texts_view(v@).map_values(|t: RichTextView| normalized_text(base@, t)),
{
    let mut r: Vec<RichText> = Vec::new();
    let mut i: usize = 0;
    while i < v.len()
        invariant
            url_parses(base@),
            0 <= i <= v@.len(),
            r@.len() == i,
            forall|k: int| 0 <= k < i ==> #[trigger] r@[k]@ == normalized_text(base@, v@[k]@),
        decreases v@.len() - i,
    {
        r.push(normalize_rich_text(base, &v[i]));
        i += 1;
    }
    assert(rich_texts_view(r@) =~= rich_texts_view(v@).map_values(|t: RichTextView| normalized_text(base@, t)));
    r
}

fn normalize_cell(base: &str, c: &Cell) -> (r: Cell)
    requires
        url_parses(base@),
    ensures
        r@ == normalized_cell(base@, c@),
{
    Cell {
        is_header: c.is_header,
        rowspan: c.rowspan,
        colspan: c.colspan,
        attrs: copy_attrs(&c.attrs),
        value: normalize_rich_text(base, &c.value),
        html: c.html.clone(),
    }
}

fn normalize_row(base: &str, row: &Row) -> (r: Row)
    requires
        url_parses(base@),
    ensures
        r@ == normalized_row(base@, row@),
{
    let mut cells: Vec<Cell> = Vec::new();
    let mut i: usize = 0;
    while i < row.cells.len()
        invariant
            url_parses(base@),
            0 <= i <= row.cells@.len(),
            cells@.len() == i,
            forall|k: int| 0 <= k < i ==> #[trigger] cells@[k]@ == normalized_cell(base@, row.cells@[k]@),
        decreases row.cells@.len() - i,
    {
        cells.push(normalize_cell(base, &row.cells[i]));
        i += 1;
    }
    let r = Row { cells, attrs: copy_attrs(&row.attrs) };
    assert(r@.cells =~= normalized_row(base@, row@).cells);
    r
}

fn normalize_level(base: &str, h: &ContentHierarchy) -> (r: ContentHierarchy)
    requires
        url_parses(base@),
    ensures
        r@ == normalized_level(base@, h@),
{
    ContentHierarchy {
        level: h.level,
        heading: normalize_rich_text(base, &h.heading),
        content_before: normalize_texts(base, &h.content_before),
        content_after: normalize_texts(base, &h.content_after),
    }
}

/// The table with the links in its cells and in its context
/// resolved against `base`.
pub fn normalize_table(base: &str, t: &Table) -> (r: Table)
    requires
        url_parses(base@),
    ensures
        r@ == normalized_table(base@, t@),
{
    let mut rows: Vec<Row> = Vec::new();
    let mut i: usize = 0;
    while i < t.rows.len()
        invariant
            url_parses(base@),
            0 <= i <= t.rows@.len(),
            rows@.len() == i,
            forall|k: int| 0 <= k < i ==> #[trigger] rows@[k]@ == normalized_row(base@, t.rows@[k]@),
        decreases t.rows@.len() - i,
    {
        rows.push(normalize_row(base, &t.rows[i]));
        i += 1;
    }
    let mut context: Vec<ContentHierarchy> = Vec::new();
    let mut j: usize = 0;
    while j < t.context.len()
        invariant
            url_parses(base@),
            0 <= j <= t.context@.len(),
            context@.len() == j,
            forall|k: int| 0 <= k < j ==> #[trigger] context@[k]@ == normalized_level(base@, t.context@[k]@),
        decreases t.context@.len() - j,
    {
        context.push(normalize_level(base, &t.context[j]));
        j += 1;
    }
    let r = Table {
        id: t.id.clone(),
        url: t.url.clone(),
        caption: t.caption.clone(),
        attrs: copy_attrs(&t.attrs),
        context,
        rows,
    };
    assert(r@.rows =~= normalized_table(base@, t@).rows);
    assert(r@.context =~= normalized_table(base@, t@).context);
    r
}

} // verus!
