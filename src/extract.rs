use vstd::prelude::*;

use crate::attr::{parse_u16_chars, span_value, trim_bounds, trim_chars, trimmed};
use crate::dom::{contains_str, dom_nodes, strings_view, Dom, DomNode, DomNodeView};
use crate::error::TableExtractorError;
use crate::richtext::{get_rich_text, get_text, no_filter, rich_text_of, TagFilter, TagFilterView};
use crate::table::{Cell, CellView, Row, RowView, Table, TableView};
use crate::text::{attrs_view, copy_attrs};
use crate::context::{context_of, ContextExtractor};
use crate::normalize::{normalize_table, normalized_table};
use crate::number::{decimal_string, push_decimal};
use crate::span::{cell_total, spanned};
use crate::table::padded;
use crate::tree::preorder_from;
use crate::tagset::set_of;
use crate::urls::{parse_query, query_fits, url_parses, url_query, url_with_query, with_query};

verus! {

pub open spec fn tag_of(n: DomNodeView) -> Option<Seq<char>> {
    match n {
        DomNodeView::Element { tag, .. } => Some(tag),
        _ => None,
    }
}

pub open spec fn node_attrs(n: DomNodeView) -> Seq<(Seq<char>, Seq<char>)> {
    match n {
        DomNodeView::Element { attrs, .. } => attrs,
        _ => Seq::empty(),
    }
}

/// The ids in `ids` of the elements whose tag is one of `tags`, in order.
pub open spec fn with_tags(d: Seq<DomNodeView>, ids: Seq<usize>, tags: Seq<Seq<char>>) -> Seq<usize>
    decreases ids.len(),
{
    if ids.len() == 0 {
        seq![]
    } else {
        let init = with_tags(d, ids.drop_last(), tags);
        match tag_of(d[ids.last() as int]) {
            Some(t) => if tags.contains(t) {
                init.push(ids.last())
            } else {
                init
            },
            None => init,
        }
    }
}

/// The value of the first attribute named `name`.
pub open spec fn attr_of(attrs: Seq<(Seq<char>, Seq<char>)>, name: Seq<char>) -> Option<Seq<char>>
    decreases attrs.len(),
{
    if attrs.len() == 0 {
        None
    } else if attrs[0].0 == name {
        Some(attrs[0].1)
    } else {
        attr_of(attrs.drop_first(), name)
    }
}

fn lit(s: &str) -> (r: String)
    ensures
        r@ == s@,
{
    s.to_owned()
}

/// The children of `id` whose tag is one of `tags`, in order.
fn children_with_tags(dom: &Dom, id: usize, tags: &Vec<String>) -> (r: Vec<usize>)
    requires
        dom.wf(),
        id < dom.spec_len(),
    ensures
        r@ == with_tags(dom_nodes(dom), dom.spec_children()[id as int], strings_view(tags@)),
        forall|j: int| 0 <= j < r@.len() ==> #[trigger] r@[j] < dom.spec_len(),
{
    let ids = dom.get_child_ids(id);
    let ghost d = dom_nodes(dom);
    let mut r: Vec<usize> = Vec::new();
    let mut k: usize = 0;
    while k < ids.len()
        invariant
            dom.wf(),
            id < dom.spec_len(),
            d == dom_nodes(dom),
            ids@ == dom.spec_children()[id as int],
            0 <= k <= ids@.len(),
            r@ == with_tags(d, ids@.take(k as int), strings_view(tags@)),
            forall|j: int| 0 <= j < r@.len() ==> #[trigger] r@[j] < dom.spec_len(),
        decreases ids@.len() - k,
    {
        let c = ids[k];
        assert(dom.spec_children()[id as int][k as int] < dom.spec_len());
        assert(ids@.take(k + 1).drop_last() =~= ids@.take(k as int));
        assert(ids@.take(k + 1).last() == c);
        let node = dom.get_node(c);
        assert(node@ == d[c as int]);
        match node {
            DomNode::Element { tag, .. } => {
                if contains_str(tags, tag) {
                    r.push(c);
                }
            },
            _ => {},
        }
        k += 1;
    }
    assert(ids@.take(k as int) =~= ids@);
    r
}

fn attr_lookup<'a>(attrs: &'a Vec<(String, String)>, name: &String) -> (r: Option<&'a String>)
    ensures
        match r {
            Some(v) => attr_of(attrs_view(attrs@), name@) == Some(v@),
            None => attr_of(attrs_view(attrs@), name@) is None,
        },
{
    let ghost a = attrs_view(attrs@);
    let mut i: usize = 0;
    assert(a.subrange(0, a.len() as int) =~= a);
    while i < attrs.len()
        invariant
            a == attrs_view(attrs@),
            0 <= i <= attrs@.len(),
            attr_of(a, name@) == attr_of(a.subrange(i as int, a.len() as int), name@),
        decreases attrs@.len() - i,
    {
        assert(a.subrange(i as int, a.len() as int).drop_first() =~= a.subrange(i + 1, a.len() as int));
        if attrs[i].0 == *name {
            return Some(&attrs[i].1);
        }
        i += 1;
    }
    None
}

fn chars_of(s: &String) -> (r: Vec<char>)
    ensures
        r@ == s@,
{
    let t = s.as_str();
    let n = t.unicode_len();
    let mut r: Vec<char> = Vec::new();
    let mut i: usize = 0;
    while i < n
        invariant
            n == t@.len(),
            t@ == s@,
            0 <= i <= n,
            r@ == s@.take(i as int),
        decreases n - i,
    {
        r.push(t.get_char(i));
        i += 1;
        assert(r@ =~= s@.take(i as int));
    }
    assert(s@.take(i as int) =~= s@);
    r
}

/// The trimmed value of span attribute `name` when it is not blank and not
/// a number.
pub open spec fn span_error_value(attrs: Seq<(Seq<char>, Seq<char>)>, name: Seq<char>) -> Option<
    Seq<char>,
> {
    match attr_of(attrs, name) {
        Some(v) => if span_value(Some(v)) is None {
            Some(trimmed(v))
        } else {
            None
        },
        None => None,
    }
}

/// The value that a cell's span error holds: that of `colspan` when it
/// fails, else that of `rowspan`; `None` when both read.
pub open spec fn cell_span_error(dom: &Dom, id: usize) -> Option<Seq<char>> {
    match dom_nodes(dom)[id as int] {
        DomNodeView::Element { attrs, .. } => match span_error_value(attrs, "colspan"@) {
            Some(v) => Some(v),
            None => span_error_value(attrs, "rowspan"@),
        },
        _ => None,
    }
}

/// Reads a span attribute: 1 when missing or blank, else its number; the
/// error holds the trimmed value.
fn span_attr(attrs: &Vec<(String, String)>, name: &String) -> (r: Result<u16, TableExtractorError>)
    ensures
        match r {
            Ok(v) => span_value(attr_of(attrs_view(attrs@), name@)) == Some(v)
                && span_error_value(attrs_view(attrs@), name@) is None,
            Err(e) => span_value(attr_of(attrs_view(attrs@), name@)) is None && (
            e matches TableExtractorError::InvalidCellSpanError(v) && span_error_value(
                attrs_view(attrs@),
                name@,
            ) == Some(v@)),
        },
{
    match attr_lookup(attrs, name) {
        None => Ok(1),
        Some(raw) => {
            let chars = chars_of(raw);
            let (lo, hi) = trim_bounds(&chars);
            let t = trim_chars(&chars);
            if t.len() == 0 {
                return Ok(1);
            }
            match parse_u16_chars(&t) {
                Some(v) => Ok(v),
                None => {
                    let value = raw.as_str().substring_char(lo, hi).to_owned();
                    Err(TableExtractorError::InvalidCellSpanError(value))
                },
            }
        },
    }
}

/// What a `td` or `th` element gives as a cell: `None` when a span
/// attribute is not a number or its rich text cannot be had.
pub open spec fn cell_of(dom: &Dom, f: TagFilterView, id: usize) -> Option<CellView> {
    match dom_nodes(dom)[id as int] {
        DomNodeView::Element { tag, attrs, html } => match (
            span_value(attr_of(attrs, "colspan"@)),
            span_value(attr_of(attrs, "rowspan"@)),
            rich_text_of(dom, id, f),
        ) {
            (Some(c), Some(r), Some(v)) => Some(
                CellView {
                    is_header: tag == "th"@,
                    rowspan: r as int,
                    colspan: c as int,
                    attrs,
                    value: v,
                    html,
                },
            ),
            _ => None,
        },
        _ => None,
    }
}

/// Tags whose elements are left out of a cell with what is inside them.
pub open spec fn default_discard_tags() -> Seq<Seq<char>> {
    seq!["script"@, "style"@, "noscript"@, "table"@]
}

/// Tags whose elements are left out of a cell but what is inside them kept.
pub open spec fn default_ignored_tags() -> Seq<Seq<char>> {
    seq!["div"@]
}

/// The tags of the inline elements of HTML.
pub open spec fn inline_tag_set() -> Seq<Seq<char>> {
    seq![
        "a"@, "abbr"@, "b"@, "bdi"@, "bdo"@, "br"@, "cite"@, "code"@, "data"@, "dfn"@, "em"@,
        "i"@, "kbd"@, "mark"@, "q"@, "s"@, "samp"@, "small"@, "span"@, "strong"@, "sub"@,
        "sup"@, "time"@, "u"@, "var"@, "wbr"@,
    ]
}

fn strings(v: Vec<&str>) -> (r: Vec<String>)
    ensures
        r@.len() == v@.len(),
        forall|i: int| 0 <= i < v@.len() ==> #[trigger] r@[i]@ == v@[i]@,
{
    let mut r: Vec<String> = Vec::new();
    let mut i: usize = 0;
    while i < v.len()
        invariant
            0 <= i <= v@.len(),
            r@.len() == i,
            forall|k: int| 0 <= k < i ==> #[trigger] r@[k]@ == v@[k]@,
        decreases v@.len() - i,
    {
        r.push(lit(v[i]));
        i += 1;
    }
    r
}

fn inline_tags() -> (r: Vec<String>)
    ensures
        strings_view(r@) == inline_tag_set(),
{
    let r = strings(
        vec![
            "a", "abbr", "b", "bdi", "bdo", "br", "cite", "code", "data", "dfn", "em", "i", "kbd",
            "mark", "q", "s", "samp", "small", "span", "strong", "sub", "sup", "time", "u", "var",
            "wbr",
        ],
    );
    assert(strings_view(r@) =~= inline_tag_set());
    r
}

fn default_discard() -> (r: Vec<String>)
    ensures
        strings_view(r@) == default_discard_tags(),
{
    let r = strings(vec!["script", "style", "noscript", "table"]);
    assert(strings_view(r@) =~= default_discard_tags());
    r
}

fn default_ignored() -> (r: Vec<String>)
    ensures
        strings_view(r@) == default_ignored_tags(),
{
    let r = strings(vec!["div"]);
    assert(strings_view(r@) =~= default_ignored_tags());
    r
}

/// A document: its address and its parsed markup.
pub struct Document {
    pub url: String,
    pub html: Dom,
}

impl Document {
    pub fn new(url: String, html: Dom) -> (r: Document)
        ensures
            r.url == url,
            r.html == html,
    {
        Document { url, html }
    }
}

/// Extracts the tables of documents.
pub struct TableExtractor {
    pub filter: TagFilter,
    pub context_extractor: ContextExtractor,
}

impl TableExtractor {
    /// An extractor with the given tag sets; a set left out takes its
    /// default. Elements that are not inline are unwrapped from cells when
    /// `only_keep_inline_tags` holds.
    pub fn new(
        context_extractor: ContextExtractor,
        ignored_tags: Option<Vec<String>>,
        discard_tags: Option<Vec<String>>,
        only_keep_inline_tags: bool,
    ) -> (r: TableExtractor)
        ensures
            r.filter@.ignored == set_of(
                match ignored_tags {
                    Some(v) => strings_view(v@),
                    None => default_ignored_tags(),
                },
            ),
            r.filter@.discard == set_of(
                match discard_tags {
                    Some(v) => strings_view(v@),
                    None => default_discard_tags(),
                },
            ),
            r.filter@.keep == set_of(Seq::<Seq<char>>::empty()),
            r.filter@.inline == set_of(inline_tag_set()),
            r.filter@.only_inline == only_keep_inline_tags,
            r.context_extractor == context_extractor,
    {
        let ignored = match ignored_tags {
            Some(v) => v,
            None => default_ignored(),
        };
        let discard = match discard_tags {
            Some(v) => v,
            None => default_discard(),
        };
        let keep: Vec<String> = Vec::new();
        assert(strings_view(keep@) =~= Seq::<Seq<char>>::empty());
        TableExtractor {
            filter: TagFilter::from_lists(ignored, discard, keep, inline_tags(), only_keep_inline_tags),
            context_extractor,
        }
    }

    /// An extractor with the default tag sets, which keeps elements that are
    /// not inline.
    pub fn default(context_extractor: ContextExtractor) -> (r: TableExtractor)
        ensures
            r.filter@.ignored == set_of(default_ignored_tags()),
            r.filter@.discard == set_of(default_discard_tags()),
            r.filter@.keep == set_of(Seq::<Seq<char>>::empty()),
            r.filter@.inline == set_of(inline_tag_set()),
            !r.filter@.only_inline,
            r.context_extractor == context_extractor,
    {
        TableExtractor::new(context_extractor, None, None, false)
    }

    /// The cell that a `td` or `th` element gives.
    pub fn extract_cell(&self, dom: &Dom, id: usize) -> (r: Result<Cell, TableExtractorError>)
        requires
            dom.wf(),
            id < dom.spec_len(),
        ensures
            r is Ok <==> cell_of(dom, self.filter@, id) is Some,
            r matches Ok(c) ==> cell_of(dom, self.filter@, id) == Some(c@),
            r matches Err(e) ==> (e is InvalidCellSpanError || e is ExtractionLimitError),
            r matches Ok(c) ==> (crate::dom::dom_attrs_unique(dom) ==> crate::text::unique_keys(
                c@.attrs,
            )),
            r matches Err(TableExtractorError::InvalidCellSpanError(v)) ==> cell_span_error(dom, id)
                == Some(v@),
            r matches Err(TableExtractorError::ExtractionLimitError(_)) ==> cell_span_error(dom, id)
                is None,
    {
        let node = dom.get_node(id);
        assert(node@ == dom_nodes(dom)[id as int]);
        assert(crate::dom::dom_attrs_unique(dom) ==> match dom_nodes(dom)[id as int] {
            DomNodeView::Element { attrs, .. } => crate::text::unique_keys(attrs),
            _ => true,
        });
        match node {
            DomNode::Element { tag, attrs, html } => {
                let is_header = tag.as_str().unicode_len() == 2 && tag.as_str().get_char(0) == 't'
                    && tag.as_str().get_char(1) == 'h';
                proof {
                    reveal_strlit("th");
                    if is_header {
                        assert(tag@ =~= "th"@);
                    }
                }
                let colspan = span_attr(attrs, &lit("colspan"))?;
                let rowspan = span_attr(attrs, &lit("rowspan"))?;
                match get_rich_text(dom, id, &self.filter) {
                    Some(value) => Ok(
                        Cell {
                            is_header,
                            rowspan,
                            colspan,
                            attrs: copy_attrs(attrs),
                            value,
                            html: html.clone(),
                        },
                    ),
                    None => Err(TableExtractorError::ExtractionLimitError(String::new())),
                }
            },
            _ => Err(TableExtractorError::ExtractionLimitError(String::new())),
        }
    }
}

/// The `tr` children of the sections `secs`, section by section.
pub open spec fn section_rows(d: Seq<DomNodeView>, ch: Seq<Seq<usize>>, secs: Seq<usize>) -> Seq<
    usize,
>
    decreases secs.len(),
{
    if secs.len() == 0 {
        seq![]
    } else {
        section_rows(d, ch, secs.drop_last()) + with_tags(d, ch[secs.last() as int], seq!["tr"@])
    }
}

/// The rows of table `t`: the `tr` children of its `thead` and `tbody`
/// children.
pub open spec fn table_row_ids(dom: &Dom, t: usize) -> Seq<usize> {
    section_rows(
        dom_nodes(dom),
        dom.spec_children(),
        with_tags(dom_nodes(dom), dom.spec_children()[t as int], seq!["thead"@, "tbody"@]),
    )
}

/// The cells of row `r`: its `td` and `th` children.
pub open spec fn row_cell_ids(dom: &Dom, r: usize) -> Seq<usize> {
    with_tags(dom_nodes(dom), dom.spec_children()[r as int], seq!["td"@, "th"@])
}

pub open spec fn cells_of(dom: &Dom, f: TagFilterView, ids: Seq<usize>) -> Option<Seq<CellView>>
    decreases ids.len(),
{
    if ids.len() == 0 {
        Some(seq![])
    } else {
        match (cells_of(dom, f, ids.drop_last()), cell_of(dom, f, ids.last())) {
            (Some(a), Some(c)) => Some(a.push(c)),
            _ => None,
        }
    }
}

pub open spec fn rows_of(dom: &Dom, f: TagFilterView, ids: Seq<usize>) -> Option<Seq<RowView>>
    decreases ids.len(),
{
    if ids.len() == 0 {
        Some(seq![])
    } else {
        match (rows_of(dom, f, ids.drop_last()), cells_of(dom, f, row_cell_ids(dom, ids.last()))) {
            (Some(a), Some(c)) => Some(
                a.push(RowView { cells: c, attrs: node_attrs(dom_nodes(dom)[ids.last() as int]) }),
            ),
            _ => None,
        }
    }
}

/// The text of the first `caption` child of table `t`, or nothing.
pub open spec fn caption_of(dom: &Dom, t: usize) -> Seq<char> {
    let caps = with_tags(dom_nodes(dom), dom.spec_children()[t as int], seq!["caption"@]);
    if caps.len() > 0 {
        match rich_text_of(dom, caps[0], no_filter()) {
            Some(v) => v.text,
            None => Seq::empty(),
        }
    } else {
        Seq::empty()
    }
}

/// What table element `t` gives, before spans are resolved; `None` when one
/// of its cells gives none.
pub open spec fn table_of(dom: &Dom, f: TagFilterView, t: usize) -> Option<TableView> {
    match rows_of(dom, f, table_row_ids(dom, t)) {
        Some(rows) => Some(
            TableView {
                id: Seq::empty(),
                url: Seq::empty(),
                caption: caption_of(dom, t),
                attrs: node_attrs(dom_nodes(dom)[t as int]),
                context: Seq::empty(),
                rows,
            },
        ),
        None => None,
    }
}

proof fn lemma_cells_of_none(dom: &Dom, f: TagFilterView, ids: Seq<usize>, k: int)
    requires
        0 <= k <= ids.len(),
        cells_of(dom, f, ids.take(k)) is None,
    ensures
        cells_of(dom, f, ids) is None,
    decreases ids.len() - k,
{
    if k < ids.len() {
        assert(ids.take(k + 1).drop_last() =~= ids.take(k));
        lemma_cells_of_none(dom, f, ids, k + 1);
    } else {
        assert(ids.take(k) =~= ids);
    }
}

proof fn lemma_rows_of_none(dom: &Dom, f: TagFilterView, ids: Seq<usize>, k: int)
    requires
        0 <= k <= ids.len(),
        rows_of(dom, f, ids.take(k)) is None,
    ensures
        rows_of(dom, f, ids) is None,
    decreases ids.len() - k,
{
    if k < ids.len() {
        assert(ids.take(k + 1).drop_last() =~= ids.take(k));
        lemma_rows_of_none(dom, f, ids, k + 1);
    } else {
        assert(ids.take(k) =~= ids);
    }
}

impl TableExtractor {
    /// The rows of a table element as its markup gives them, with its
    /// caption and attributes; spans are left as they are.
    pub fn extract_non_nested_table(&self, dom: &Dom, table_id: usize) -> (r: Result<
        Table,
        TableExtractorError,
    >)
        requires
            dom.wf(),
            table_id < dom.spec_len(),
        ensures
            r is Ok <==> table_of(dom, self.filter@, table_id) is Some,
            r matches Ok(t) ==> table_of(dom, self.filter@, table_id) == Some(t@),
            r matches Err(e) ==> !(e is OverlapSpanError) && !(e is InvalidUrlError),
    {
        let ghost d = dom_nodes(dom);
        let ghost ch = dom.spec_children();
        let caption_tags = strings(vec!["caption"]);
        let section_tags = strings(vec!["thead", "tbody"]);
        let row_tags = strings(vec!["tr"]);
        let cell_tags = strings(vec!["td", "th"]);
        assert(strings_view(caption_tags@) =~= seq!["caption"@]);
        assert(strings_view(section_tags@) =~= seq!["thead"@, "tbody"@]);
        assert(strings_view(row_tags@) =~= seq!["tr"@]);
        assert(strings_view(cell_tags@) =~= seq!["td"@, "th"@]);
        let caps = children_with_tags(dom, table_id, &caption_tags);
        let caption = if caps.len() > 0 {
            match get_text(dom, caps[0]) {
                Some(t) => t,
                None => String::new(),
            }
        } else {
            String::new()
        };
        let secs = children_with_tags(dom, table_id, &section_tags);
        let mut row_ids: Vec<usize> = Vec::new();
        let mut i: usize = 0;
        while i < secs.len()
            invariant
                dom.wf(),
                d == dom_nodes(dom),
                ch == dom.spec_children(),
                strings_view(row_tags@) == seq!["tr"@],
                forall|j: int| 0 <= j < secs@.len() ==> #[trigger] secs@[j] < dom.spec_len(),
                0 <= i <= secs@.len(),
                row_ids@ == section_rows(d, ch, secs@.take(i as int)),
                forall|j: int| 0 <= j < row_ids@.len() ==> #[trigger] row_ids@[j] < dom.spec_len(),
            decreases secs@.len() - i,
        {
            let mut more = children_with_tags(dom, secs[i], &row_tags);
            let ghost before = row_ids@;
            let ghost m = more@;
            row_ids.append(&mut more);
            assert(secs@.take(i + 1).drop_last() =~= secs@.take(i as int));
            i += 1;
            assert forall|j: int| 0 <= j < row_ids@.len() implies #[trigger] row_ids@[j] < dom.spec_len() by {
                if j >= before.len() {
                    assert(row_ids@[j] == m[j - before.len()]);
                }
            }
        }
        assert(secs@.take(i as int) =~= secs@);
        let ghost rids = row_ids@;
        assert(rids == table_row_ids(dom, table_id));
        let mut rows: Vec<Row> = Vec::new();
        let mut ri: usize = 0;
        while ri < row_ids.len()
            invariant
                dom.wf(),
                d == dom_nodes(dom),
                ch == dom.spec_children(),
                strings_view(cell_tags@) == seq!["td"@, "th"@],
                rids == row_ids@,
                rids == table_row_ids(dom, table_id),
                forall|j: int| 0 <= j < rids.len() ==> #[trigger] rids[j] < dom.spec_len(),
                0 <= ri <= rids.len(),
                rows_of(dom, self.filter@, rids.take(ri as int)) == Some(
                    crate::table::rows_view(rows@),
                ),
            decreases rids.len() - ri,
        {
            let rid = row_ids[ri];
            let cids = children_with_tags(dom, rid, &cell_tags);
            let mut cells: Vec<Cell> = Vec::new();
            let mut ci: usize = 0;
            while ci < cids.len()
                invariant
                    dom.wf(),
                    d == dom_nodes(dom),
                    cids@ == row_cell_ids(dom, rid),
                    rids == row_ids@,
                    rids == table_row_ids(dom, table_id),
                    0 <= ri < rids.len(),
                    rid == rids[ri as int],
                    forall|j: int| 0 <= j < rids.len() ==> #[trigger] rids[j] < dom.spec_len(),
                    rows_of(dom, self.filter@, rids.take(ri as int)) == Some(
                        crate::table::rows_view(rows@),
                    ),
                    forall|j: int| 0 <= j < cids@.len() ==> #[trigger] cids@[j] < dom.spec_len(),
                    0 <= ci <= cids@.len(),
                    cells_of(dom, self.filter@, cids@.take(ci as int)) == Some(
                        crate::table::cells_view(cells@),
                    ),
                decreases cids@.len() - ci,
            {
                assert(cids@.take(ci + 1).drop_last() =~= cids@.take(ci as int));
                assert(cids@.take(ci + 1).last() == cids@[ci as int]);
                match self.extract_cell(dom, cids[ci]) {
                    Ok(c) => {
                        let ghost before = crate::table::cells_view(cells@);
                        let ghost cv = c@;
                        cells.push(c);
                        assert(crate::table::cells_view(cells@) =~= before.push(cv));
                    },
                    Err(e) => {
                        proof {
                            lemma_cells_of_none(dom, self.filter@, cids@, ci + 1);
                            assert(rids.take(ri + 1).drop_last() =~= rids.take(ri as int));
                            lemma_rows_of_none(dom, self.filter@, rids, ri + 1);
                        }
                        return Err(e);
                    },
                }
                ci += 1;
            }
            assert(cids@.take(ci as int) =~= cids@);
            let node = dom.get_node(rid);
            let attrs = match node {
                DomNode::Element { attrs, .. } => copy_attrs(attrs),
                _ => Vec::new(),
            };
            proof {
                assert(node@ == d[rid as int]);
                if !(d[rid as int] is Element) {
                    assert(attrs_view(attrs@) =~= Seq::<(Seq<char>, Seq<char>)>::empty());
                }
            }
            let ghost before = crate::table::rows_view(rows@);
            let row = Row { cells, attrs };
            let ghost rv = row@;
            rows.push(row);
            assert(crate::table::rows_view(rows@) =~= before.push(rv));
            assert(rids.take(ri + 1).drop_last() =~= rids.take(ri as int));
            ri += 1;
        }
        assert(rids.take(ri as int) =~= rids);
        let node = dom.get_node(table_id);
        let attrs = match node {
            DomNode::Element { attrs, .. } => copy_attrs(attrs),
            _ => Vec::new(),
        };
        proof {
            assert(node@ == d[table_id as int]);
            if !(d[table_id as int] is Element) {
                assert(attrs_view(attrs@) =~= Seq::<(Seq<char>, Seq<char>)>::empty());
            }
        }
        let t = Table {
            id: String::new(),
            url: String::new(),
            caption,
            attrs,
            context: Vec::new(),
            rows,
        };
        assert(t@.context =~= Seq::<crate::context::ContentHierarchyView>::empty());
        Ok(t)
    }
}

pub open spec fn is_table_node(n: DomNodeView) -> bool {
    tag_of(n) == Some("table"@)
}

/// Whether a table element stands below node `id`.
pub open spec fn holds_table(dom: &Dom, id: usize) -> bool {
    let pre = preorder_from(dom.spec_children(), id, dom.spec_len());
    exists|k: int| 1 <= k < pre.len() && is_table_node(dom_nodes(dom)[#[trigger] pre[k] as int])
}

/// The table elements among `ids` that hold no other table, in order.
pub open spec fn leaf_tables(dom: &Dom, ids: Seq<usize>) -> Seq<usize>
    decreases ids.len(),
{
    if ids.len() == 0 {
        seq![]
    } else {
        let init = leaf_tables(dom, ids.drop_last());
        let id = ids.last();
        if is_table_node(dom_nodes(dom)[id as int]) && !holds_table(dom, id) {
            init.push(id)
        } else {
            init
        }
    }
}

/// The table elements of the document that hold no other table, in
/// document order.
pub open spec fn table_elements(dom: &Dom) -> Seq<usize> {
    leaf_tables(dom, dom.spec_preorder())
}

/// The table after span resolution, when asked for; `None` when it fails
/// or the table has more cells than `usize` counts.
pub open spec fn after_span(t: TableView, auto_span: bool) -> Option<TableView> {
    if !auto_span {
        Some(t)
    } else if cell_total(t.rows, t.rows.len() as int) <= usize::MAX {
        match spanned(t) {
            Ok(s) => Some(s),
            Err(_) => None,
        }
    } else {
        None
    }
}

pub open spec fn after_pad(t: TableView, auto_pad: bool) -> TableView {
    if auto_pad {
        match padded(t) {
            Some(p) => p,
            None => t,
        }
    } else {
        t
    }
}

/// The flags of one extraction.
pub struct ExtractOptions {
    pub auto_span: bool,
    pub auto_pad: bool,
    pub extract_context: bool,
}

/// What table element `id` becomes before it is named: `None` when one of
/// its cells or its spans fail.
pub open spec fn prepared(ex: &TableExtractor, dom: &Dom, id: usize, o: ExtractOptions) -> Option<
    TableView,
> {
    match table_of(dom, ex.filter@, id) {
        Some(t) => match after_span(t, o.auto_span) {
            Some(s) => {
                let p = after_pad(s, o.auto_pad);
                Some(
                    TableView {
                        context: if o.extract_context {
                            context_of(
                                dom,
                                ex.context_extractor.filter@,
                                strings_view(ex.context_extractor.heading_tags@),
                                id,
                            )
                        } else {
                            p.context
                        },
                        ..p
                    },
                )
            },
            None => None,
        },
        None => None,
    }
}

/// The tables that the elements `ids` give, in order, those that fail left out.
pub open spec fn prepared_all(ex: &TableExtractor, dom: &Dom, ids: Seq<usize>, o: ExtractOptions) -> Seq<
    TableView,
>
    decreases ids.len(),
{
    if ids.len() == 0 {
        seq![]
    } else {
        let init = prepared_all(ex, dom, ids.drop_last(), o);
        match prepared(ex, dom, ids.last(), o) {
            Some(t) => init.push(t),
            None => init,
        }
    }
}

/// The query that names table `i` of a document whose address has query `q`.
pub open spec fn table_query(q: Option<Seq<char>>, i: nat) -> Seq<char> {
    match q {
        None => "table_no="@ + decimal_string(i),
        Some(q) => q + "&table_no="@ + decimal_string(i),
    }
}

/// Table `t`, the `i`-th kept of the document at `url`, named and with its
/// links resolved.
pub open spec fn finished(url: Seq<char>, i: nat, t: TableView) -> TableView {
    normalized_table(
        url,
        TableView { id: url_with_query(url, table_query(url_query(url), i)), url, ..t },
    )
}

/// Tables at different positions of one document get different
/// `table_no` queries, whatever the query of its address.
pub proof fn lemma_table_queries_distinct(q: Option<Seq<char>>, i: nat, j: nat)
    requires
        i != j,
    ensures
        table_query(q, i) != table_query(q, j),
{
    let pre = match q {
        None => "table_no="@,
        Some(q) => q + "&table_no="@,
    };
    assert(table_query(q, i) == pre + decimal_string(i));
    assert(table_query(q, j) == pre + decimal_string(j));
    if table_query(q, i) == table_query(q, j) {
        assert((pre + decimal_string(i)).subrange(pre.len() as int, (pre + decimal_string(i)).len() as int)
            =~= decimal_string(i));
        assert((pre + decimal_string(j)).subrange(pre.len() as int, (pre + decimal_string(j)).len() as int)
            =~= decimal_string(j));
        crate::number::lemma_decimal_string_injective(i, j);
    }
}

/// The names of the first `n` tables of the document at `url` can be made:
/// each address with its `table_no` query is short enough for the URL type.
pub open spec fn ids_fit(url: Seq<char>, n: nat) -> bool {
    forall|i: nat| i < n ==> #[trigger] query_fits(url, table_query(url_query(url), i))
}

/// The tables that the document gives before they are named.
pub open spec fn kept_tables(ex: &TableExtractor, doc: &Document, o: ExtractOptions) -> Seq<TableView> {
    prepared_all(ex, &doc.html, table_elements(&doc.html), o)
}

pub open spec fn tables_view(v: Seq<Table>) -> Seq<TableView> {
    v.map_values(|t: Table| t@)
}

fn is_table_exec(n: &DomNode) -> (r: bool)
    ensures
        r == is_table_node(n@),
{
    match n {
        DomNode::Element { tag, .. } => {
            let t = lit("table");
            *tag == t
        },
        _ => false,
    }
}

fn holds_table_exec(dom: &Dom, id: usize) -> (r: bool)
    requires
        dom.wf(),
        id < dom.spec_len(),
    ensures
        r == holds_table(dom, id),
{
    let pre = dom.iter_id_preorder_from(id);
    let ghost d = dom_nodes(dom);
    proof {
        crate::tree::lemma_preorder_from_in_range(dom, id);
    }
    let mut k: usize = 1;
    while k < pre.len()
        invariant
            d == dom_nodes(dom),
            pre@ == preorder_from(dom.spec_children(), id, dom.spec_len()),
            forall|j: int| 0 <= j < pre@.len() ==> #[trigger] pre@[j] < dom.spec_len(),
            1 <= k,
            forall|j: int| 1 <= j < k && j < pre@.len() ==> !is_table_node(d[#[trigger] pre@[j] as int]),
        decreases pre@.len() - k,
    {
        let node = dom.get_node(pre[k]);
        assert(node@ == d[pre@[k as int] as int]);
        if is_table_exec(node) {
            return true;
        }
        k += 1;
    }
    false
}

fn find_tables(dom: &Dom) -> (r: Vec<usize>)
    requires
        dom.wf(),
    ensures
        r@ == table_elements(dom),
        forall|j: int| 0 <= j < r@.len() ==> #[trigger] r@[j] < dom.spec_len(),
{
    let pre = dom.iter_id_preorder();
    proof {
        dom.lemma_preorder_in_range();
    }
    let ghost d = dom_nodes(dom);
    let mut r: Vec<usize> = Vec::new();
    let mut k: usize = 0;
    while k < pre.len()
        invariant
            dom.wf(),
            d == dom_nodes(dom),
            pre@ == dom.spec_preorder(),
            forall|j: int| 0 <= j < pre@.len() ==> #[trigger] pre@[j] < dom.spec_len(),
            0 <= k <= pre@.len(),
            r@ == leaf_tables(dom, pre@.take(k as int)),
            forall|j: int| 0 <= j < r@.len() ==> #[trigger] r@[j] < dom.spec_len(),
        decreases pre@.len() - k,
    {
        let id = pre[k];
        assert(pre@.take(k + 1).drop_last() =~= pre@.take(k as int));
        assert(pre@.take(k + 1).last() == id);
        let node = dom.get_node(id);
        assert(node@ == d[id as int]);
        if is_table_exec(node) && !holds_table_exec(dom, id) {
            r.push(id);
        }
        k += 1;
    }
    assert(pre@.take(k as int) =~= pre@);
    r
}

fn cell_total_exec(rows: &Vec<Row>) -> (r: Option<usize>)
    ensures
        r is Some <==> cell_total(crate::table::rows_view(rows@), rows@.len() as int) <= usize::MAX,
{
    let ghost rv = crate::table::rows_view(rows@);
    let mut total: usize = 0;
    let mut i: usize = 0;
    while i < rows.len()
        invariant
            rv == crate::table::rows_view(rows@),
            0 <= i <= rows@.len(),
            total == cell_total(rv, i as int),
        decreases rows@.len() - i,
    {
        let n = rows[i].cells.len();
        if n > usize::MAX - total {
            proof {
                crate::span::lemma_cell_total_monotone(rv, i + 1, rows@.len() as int);
            }
            return None;
        }
        total = total + n;
        i += 1;
    }
    Some(total)
}

pub open spec fn opt_table_view(o: Option<Table>) -> Option<TableView> {
    match o {
        Some(t) => Some(t@),
        None => None,
    }
}

impl TableExtractor {
    fn prepare(&self, dom: &Dom, id: usize, auto_span: bool, auto_pad: bool, extract_context: bool) -> (r:
        Option<Table>)
        requires
            dom.wf(),
            id < dom.spec_len(),
        ensures
            opt_table_view(r) == prepared(
                self,
                dom,
                id,
                (ExtractOptions { auto_span, auto_pad, extract_context }),
            ),
    {
        let t = match self.extract_non_nested_table(dom, id) {
            Ok(t) => t,
            Err(_) => {
                return None;
            },
        };
        let t = if auto_span {
            match cell_total_exec(&t.rows) {
                Some(_) => match t.span() {
                    Ok(s) => s,
                    Err(_) => {
                        return None;
                    },
                },
                None => {
                    return None;
                },
            }
        } else {
            t
        };
        let mut t = if auto_pad {
            match t.pad() {
                Some(p) => p,
                None => t,
            }
        } else {
            t
        };
        if extract_context {
            t.context = self.context_extractor.extract_context(dom, id);
        }
        Some(t)
    }

    /// The tables of a document: each table element that holds no other
    /// table, in document order, with its spans resolved and its rows
    /// padded when asked for, and its context when asked for. A table whose
    /// cells or spans fail is left out. Each table is named by the document's
    /// address with the query parameter `table_no` set to its position among
    /// the tables kept, and the links in it are resolved against that
    /// address. Fails when the address is not an absolute URL, or is too
    /// long for the names of the tables to be made.
    pub fn extract_tables(
        &self,
        doc: &Document,
        auto_span: bool,
        auto_pad: bool,
        extract_context: bool,
    ) -> (r: Result<Vec<Table>, TableExtractorError>)
        requires
            doc.html.wf(),
        ensures
            r is Ok <==> url_parses(doc.url@) && ids_fit(
                doc.url@,
                kept_tables(self, doc, (ExtractOptions { auto_span, auto_pad, extract_context })).len(),
            ),
            r matches Err(e) ==> e is InvalidUrlError,
            r matches Ok(v) ==> ({
                let kept = kept_tables(self, doc, (ExtractOptions { auto_span, auto_pad, extract_context }));
                tables_view(v@) == Seq::new(
                    kept.len(),
                    |i: int| finished(doc.url@, i as nat, kept[i]),
                )
            }),
    {
        let url = doc.url.as_str();
        let query = match parse_query(url) {
            Some(q) => q,
            None => {
                return Err(TableExtractorError::InvalidUrlError(doc.url.clone()));
            },
        };
        let dom = &doc.html;
        let ghost opts = ExtractOptions { auto_span, auto_pad, extract_context };
        let ids = find_tables(dom);
        let mut kept: Vec<Table> = Vec::new();
        let mut k: usize = 0;
        while k < ids.len()
            invariant
                dom.wf(),
                forall|j: int| 0 <= j < ids@.len() ==> #[trigger] ids@[j] < dom.spec_len(),
                0 <= k <= ids@.len(),
                tables_view(kept@) == prepared_all(self, dom, ids@.take(k as int), opts),
                opts == (ExtractOptions { auto_span, auto_pad, extract_context }),
            decreases ids@.len() - k,
        {
            assert(ids@.take(k + 1).drop_last() =~= ids@.take(k as int));
            assert(ids@.take(k + 1).last() == ids@[k as int]);
            let ghost before = tables_view(kept@);
            match self.prepare(dom, ids[k], auto_span, auto_pad, extract_context) {
                Some(t) => {
                    let ghost tv = t@;
                    kept.push(t);
                    assert(tables_view(kept@) =~= before.push(tv));
                },
                None => {},
            }
            k += 1;
        }
        assert(ids@.take(k as int) =~= ids@);
        let ghost all = tables_view(kept@);
        assert(all == kept_tables(self, doc, (ExtractOptions { auto_span, auto_pad, extract_context })));
        let mut prefix = match query {
            Some(q) => {
                let mut p = q;
                p.append("&table_no=");
                p
            },
            None => lit("table_no="),
        };
        let mut out: Vec<Table> = Vec::new();
        let mut i: usize = 0;
        while i < kept.len()
            invariant
                url_parses(url@),
                url@ == doc.url@,
                all == tables_view(kept@),
                all == kept_tables(self, doc, (ExtractOptions { auto_span, auto_pad, extract_context })),
                0 <= i <= kept@.len(),
                out@.len() == i,
                forall|j: int| 0 <= j < i ==> #[trigger] out@[j]@ == finished(url@, j as nat, all[j]),
                prefix@ == (match url_query(url@) {
                    None => "table_no="@,
                    Some(q) => q + "&table_no="@,
                }),
                forall|j: nat| j < i ==> #[trigger] query_fits(url@, table_query(url_query(url@), j)),
            decreases kept@.len() - i,
        {
            let mut q = prefix.clone();
            push_decimal(i, &mut q);
            assert(q@ == table_query(url_query(url@), i as nat));
            let ul = url.unicode_len();
            let ql = q.as_str().unicode_len();
            if !(ul < 400_000_000 && ql < 400_000_000 && 12 * (ul as u64) + 12 * (ql as u64) + 2
                <= 4294967295) {
                assert(!query_fits(url@, table_query(url_query(url@), i as nat)));
                assert(i < all.len());
                assert(!ids_fit(url@, all.len()));
                return Err(TableExtractorError::InvalidUrlError(doc.url.clone()));
            }
            let mut t = kept[i].copy();
            t.id = with_query(url, q.as_str());
            t.url = doc.url.clone();
            let named = normalize_table(url, &t);
            out.push(named);
            i += 1;
        }
        assert(ids_fit(url@, all.len()));
        Ok(out)
    }
}

} // verus!
