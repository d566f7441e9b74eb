use table_extractor::context::{flatten_node, flatten_node_recur, ContextExtractor};
use table_extractor::dom::{Dom, DomNode};
use table_extractor::error::TableExtractorError;
use table_extractor::extract::{Document, TableExtractor};
use table_extractor::richtext::{get_rich_text, get_text, TagFilter};
use table_extractor::text::RichText;
use table_extractor::traversal::get_rich_text_iter;
use table_extractor::tree::SimpleTree;

fn element(tag: &str) -> DomNode {
    DomNode::Element { tag: tag.to_owned(), attrs: Vec::new(), html: String::new() }
}

fn element_with(tag: &str, attrs: &[(&str, &str)]) -> DomNode {
    DomNode::Element {
        tag: tag.to_owned(),
        attrs: attrs.iter().map(|(k, v)| (k.to_string(), v.to_string())).collect(),
        html: String::new(),
    }
}

fn text(s: &str) -> DomNode {
    DomNode::Text { text: s.to_owned() }
}

fn child(dom: &mut Dom, parent: usize, node: DomNode) -> usize {
    let id = dom.add_node(node);
    dom.add_child(parent, id);
    id
}

/// `<p>What are you<b>doing </b>?</p>`
fn paragraph() -> Dom {
    let mut dom = SimpleTree::new(element("p"));
    child(&mut dom, 0, text("What are you"));
    let b = child(&mut dom, 0, element("b"));
    child(&mut dom, b, text("doing "));
    child(&mut dom, 0, text("?"));
    dom
}

fn no_filter() -> TagFilter {
    TagFilter::none()
}

#[test]
fn plain_text_of_paragraph() {
    let dom = paragraph();
    assert_eq!(get_text(&dom, 0).unwrap(), "What are youdoing ?");
}

#[test]
fn rich_text_of_paragraph_has_spans() {
    let dom = paragraph();
    let rt = get_rich_text(&dom, 0, &no_filter()).unwrap();
    assert_eq!(rt.text, "What are youdoing ?");
    assert_eq!(rt.element.len(), 2);
    let p = rt.element.get_node(0);
    assert_eq!((p.tag.as_str(), p.start, p.end), ("p", 0, 19));
    let b = rt.element.get_node(1);
    assert_eq!((b.tag.as_str(), b.start, b.end), ("b", 12, 18));
    assert_eq!(rt.element.get_child_ids(0), &[1]);
}

#[test]
fn filters_drop_discard_and_unwrap() {
    let mut dom = SimpleTree::new(element("td"));
    let d = child(&mut dom, 0, element("div"));
    child(&mut dom, d, text("in div"));
    let s = child(&mut dom, 0, element("script"));
    child(&mut dom, s, text("code"));
    let f = TagFilter::from_lists(vec!["div".to_owned()], vec!["script".to_owned()], Vec::new(), Vec::new(), false);
    let rt = get_rich_text(&dom, 0, &f).unwrap();
    assert_eq!(rt.text, "in div");
    assert_eq!(rt.element.len(), 1);
    assert_eq!(rt.element.get_node(0).end, 6);
}

fn cell_dom() -> (Dom, usize) {
    let mut dom = SimpleTree::new(element("table"));
    let body = child(&mut dom, 0, element("tbody"));
    let tr = child(&mut dom, body, element("tr"));
    let td = child(&mut dom, tr, element_with("td", &[("colspan", " 2 "), ("rowspan", "")]));
    child(&mut dom, td, text("x"));
    (dom, td)
}

#[test]
fn cell_spans_are_parsed() {
    let (dom, td) = cell_dom();
    let ex = TableExtractor::default(ContextExtractor::default());
    let c = ex.extract_cell(&dom, td).unwrap();
    assert_eq!(c.colspan, 2);
    assert_eq!(c.rowspan, 1);
    assert!(!c.is_header);
    assert_eq!(c.value.text, "x");
}

#[test]
fn cell_span_that_is_no_number_is_invalid() {
    let mut dom = SimpleTree::new(element_with("th", &[("rowspan", "two")]));
    child(&mut dom, 0, text("x"));
    let ex = TableExtractor::default(ContextExtractor::default());
    match ex.extract_cell(&dom, 0) {
        Err(TableExtractorError::InvalidCellSpanError(raw)) => assert_eq!(raw, "two"),
        _ => panic!("expected an invalid span"),
    }
}

/// A document with `n` simple tables side by side under `body`, and a link
/// in the first cell of each.
fn tables_doc(n: usize, href: &str) -> Dom {
    let mut dom = SimpleTree::new(element("body"));
    for i in 0..n {
        let t = child(&mut dom, 0, element("table"));
        let body = child(&mut dom, t, element("tbody"));
        let tr = child(&mut dom, body, element("tr"));
        let td = child(&mut dom, tr, element("td"));
        let a = child(&mut dom, td, element_with("a", &[("href", href)]));
        child(&mut dom, a, text(&format!("t{}", i)));
    }
    dom
}

#[test]
fn tables_are_numbered_in_order() {
    let doc = Document::new("http://example.com/page?x=1".to_owned(), tables_doc(3, "a.html"));
    let ex = TableExtractor::default(ContextExtractor::default());
    let tables = ex.extract_tables(&doc, true, true, false).unwrap();
    assert_eq!(tables.len(), 3);
    for (i, t) in tables.iter().enumerate() {
        assert_eq!(t.id, format!("http://example.com/page?x=1&table_no={}", i));
        assert_eq!(t.url, "http://example.com/page?x=1");
        assert_eq!(t.rows[0].cells[0].value.text, format!("t{}", i));
    }
}

#[test]
fn relative_links_are_resolved() {
    let doc = Document::new("http://example.com/dir/page".to_owned(), tables_doc(1, "other.html"));
    let ex = TableExtractor::default(ContextExtractor::default());
    let tables = ex.extract_tables(&doc, true, true, false).unwrap();
    assert_eq!(tables[0].id, "http://example.com/dir/page?table_no=0");
    let link = tables[0].rows[0].cells[0].value.element.get_node(1);
    assert_eq!(link.tag, "a");
    assert_eq!(link.attrs[0].1, "http://example.com/dir/other.html");
}

#[test]
fn absolute_links_are_kept() {
    let doc = Document::new("http://example.com/".to_owned(), tables_doc(1, "https://other.org/x"));
    let ex = TableExtractor::default(ContextExtractor::default());
    let tables = ex.extract_tables(&doc, true, true, false).unwrap();
    let link = tables[0].rows[0].cells[0].value.element.get_node(1);
    assert_eq!(link.attrs[0].1, "https://other.org/x");
}

#[test]
fn bad_document_url_fails() {
    let doc = Document::new("not a url".to_owned(), tables_doc(1, "a"));
    let ex = TableExtractor::default(ContextExtractor::default());
    match ex.extract_tables(&doc, true, true, false) {
        Err(TableExtractorError::InvalidUrlError(_)) => {},
        _ => panic!("expected a URL error"),
    }
}

#[test]
fn nested_tables_are_taken_inside_only() {
    let mut dom = SimpleTree::new(element("body"));
    let outer = child(&mut dom, 0, element("table"));
    let body = child(&mut dom, outer, element("tbody"));
    let tr = child(&mut dom, body, element("tr"));
    let td = child(&mut dom, tr, element("td"));
    let inner = child(&mut dom, td, element("table"));
    let ib = child(&mut dom, inner, element("tbody"));
    let itr = child(&mut dom, ib, element("tr"));
    let itd = child(&mut dom, itr, element("td"));
    child(&mut dom, itd, text("inner"));
    let doc = Document::new("http://example.com/".to_owned(), dom);
    let ex = TableExtractor::default(ContextExtractor::default());
    let tables = ex.extract_tables(&doc, true, true, false).unwrap();
    assert_eq!(tables.len(), 1);
    assert_eq!(tables[0].rows[0].cells[0].value.text, "inner");
}

#[test]
fn failing_table_is_left_out() {
    let mut dom = tables_doc(2, "a");
    let t = dom.get_child_ids(0)[0];
    let body = dom.get_child_ids(t)[0];
    let tr = dom.get_child_ids(body)[0];
    let td = dom.get_child_ids(tr)[0];
    if let DomNode::Element { attrs, .. } = dom.get_node_mut(td) {
        attrs.push(("colspan".to_owned(), "x".to_owned()));
    }
    let doc = Document::new("http://example.com/".to_owned(), dom);
    let ex = TableExtractor::default(ContextExtractor::default());
    let tables = ex.extract_tables(&doc, true, true, false).unwrap();
    assert_eq!(tables.len(), 1);
    assert_eq!(tables[0].id, "http://example.com/?table_no=0");
    assert_eq!(tables[0].rows[0].cells[0].value.text, "t1");
}

/// A parsed page: document, doctype, html with head and body; three nested
/// sections with headings h1, h2, h3, a table last in the innermost one.
/// Returns the tree, the first section and the table.
fn page() -> (Dom, usize, usize) {
    let mut dom = SimpleTree::new(DomNode::Other);
    child(&mut dom, 0, DomNode::Other);
    let html = child(&mut dom, 0, element("html"));
    let head = child(&mut dom, html, element("head"));
    let title = child(&mut dom, head, element("title"));
    child(&mut dom, title, text("Page"));
    let body = child(&mut dom, html, element("body"));
    child(&mut dom, body, text("\n"));
    let p0 = child(&mut dom, body, element("p"));
    child(&mut dom, p0, text("Date: Today"));
    child(&mut dom, body, text("\n"));
    let s1 = child(&mut dom, body, element("section"));
    child(&mut dom, s1, text("\n  "));
    let h1 = child(&mut dom, s1, element("h1"));
    child(&mut dom, h1, text("Section 1"));
    child(&mut dom, s1, text("abc "));
    let sp = child(&mut dom, s1, element("span"));
    child(&mut dom, sp, text("def"));
    let p1 = child(&mut dom, s1, element("p"));
    child(&mut dom, p1, text("Content of section 1"));
    let s2 = child(&mut dom, s1, element("div"));
    child(&mut dom, s1, text("\n"));
    let h2 = child(&mut dom, s2, element("h2"));
    child(&mut dom, h2, text("Section 1.1"));
    let p2 = child(&mut dom, s2, element("p"));
    child(&mut dom, p2, text("Content of section 1.1"));
    let d2 = child(&mut dom, s2, element("div"));
    let hello = child(&mut dom, d2, element("span"));
    child(&mut dom, hello, text("hello"));
    child(&mut dom, d2, text(" "));
    let world = child(&mut dom, d2, element("a"));
    child(&mut dom, world, text("World"));
    child(&mut dom, d2, text(" ."));
    let s3 = child(&mut dom, s2, element("section"));
    let h3 = child(&mut dom, s3, element("h3"));
    child(&mut dom, h3, text("Section 1.1.1"));
    let p3 = child(&mut dom, s3, element("p"));
    child(&mut dom, p3, text("here "));
    let is = child(&mut dom, p3, element("span"));
    child(&mut dom, is, text("is the section"));
    child(&mut dom, p3, text(" "));
    let bold = child(&mut dom, p3, element("b"));
    child(&mut dom, bold, text("1.1.1"));
    let table = child(&mut dom, s3, element("table"));
    let tb = child(&mut dom, table, element("tbody"));
    let tr = child(&mut dom, tb, element("tr"));
    let td = child(&mut dom, tr, element("td"));
    child(&mut dom, td, text("x"));
    (dom, s1, table)
}

fn texts(v: &[RichText]) -> Vec<String> {
    v.iter().map(|t| t.text.clone()).collect()
}

#[test]
fn test_context_extractor() {
    let (dom, _, table) = page();
    let levels = ContextExtractor::default().extract_context(&dom, table);
    assert_eq!(levels.len(), 4);
    for (i, l) in levels.iter().enumerate() {
        assert_eq!(l.level, i);
        assert!(l.content_after.is_empty());
    }
    assert_eq!(levels[0].heading.text, "");
    assert_eq!(levels[0].heading.to_html(), "");
    assert_eq!(texts(&levels[0].content_before), vec!["Date: Today"]);
    assert_eq!(levels[1].heading.to_html(), "<h1>Section 1</h1>");
    assert_eq!(texts(&levels[1].content_before), vec!["abc def", "Content of section 1"]);
    assert_eq!(levels[1].content_before[0].to_html(), "abc <span>def</span>");
    assert_eq!(levels[2].heading.to_html(), "<h2>Section 1.1</h2>");
    assert_eq!(texts(&levels[2].content_before), vec!["Content of section 1.1", "hello World ."]);
    assert_eq!(levels[3].heading.to_html(), "<h3>Section 1.1.1</h3>");
    assert_eq!(levels[3].content_before[0].to_html(), "<p>here <span>is the section</span> <b>1.1.1</b></p>");
}

#[test]
fn context_after_the_path_keeps_document_order() {
    let mut dom = SimpleTree::new(element("body"));
    let s = child(&mut dom, 0, element("section"));
    let h = child(&mut dom, s, element("h1"));
    child(&mut dom, h, text("Title"));
    let inner = child(&mut dom, s, element("div"));
    let target = child(&mut dom, inner, element("table"));
    let a = child(&mut dom, inner, element("p"));
    child(&mut dom, a, text("inner after"));
    let b = child(&mut dom, s, element("p"));
    child(&mut dom, b, text("outer after"));
    let levels = ContextExtractor::default().extract_context(&dom, target);
    assert_eq!(levels.len(), 2);
    assert_eq!(levels[1].heading.text, "Title");
    assert_eq!(texts(&levels[1].content_after), vec!["inner after", "outer after"]);
}

#[test]
fn extracted_table_context_has_heading_levels() {
    let (dom, _, _) = page();
    let doc = Document::new("http://example.com/".to_owned(), dom);
    let ex = TableExtractor::default(ContextExtractor::default());
    let tables = ex.extract_tables(&doc, true, true, true).unwrap();
    assert_eq!(tables.len(), 1);
    let c = &tables[0].context;
    assert_eq!(c.len(), 4);
    assert!((0..4).all(|i| c[i].level == i && c[i].content_after.is_empty()));
    assert_eq!(c[0].heading.text, "");
    assert_eq!(c[0].heading.element.len(), 1);
    assert_eq!(c[3].heading.text, "Section 1.1.1");
}

fn same_rich_text(a: &RichText, b: &RichText) -> bool {
    if a.text != b.text || a.element.len() != b.element.len() {
        return false;
    }
    if a.element.get_root_id() != b.element.get_root_id() {
        return false;
    }
    (0..a.element.len()).all(|i| {
        let (x, y) = (a.element.get_node(i), b.element.get_node(i));
        x.tag == y.tag
            && x.start == y.start
            && x.end == y.end
            && x.attrs == y.attrs
            && a.element.get_child_ids(i) == b.element.get_child_ids(i)
    })
}

#[test]
fn explicit_stack_and_recursion_agree() {
    let mut dom = SimpleTree::new(element("td"));
    let d = child(&mut dom, 0, element("div"));
    child(&mut dom, d, text("one "));
    let b = child(&mut dom, d, element("b"));
    child(&mut dom, b, text("two"));
    let s = child(&mut dom, 0, element("script"));
    child(&mut dom, s, text("x"));
    let a = child(&mut dom, 0, element_with("a", &[("href", "/z")]));
    let p = child(&mut dom, a, element("p"));
    child(&mut dom, p, text(" three"));
    let filters = vec![
        no_filter(),
        TagFilter::from_lists(vec!["div".to_owned()], vec!["script".to_owned()], Vec::new(), vec!["a".to_owned(), "b".to_owned()], true),
        TagFilter::from_lists(Vec::new(), Vec::new(), vec!["p".to_owned()], Vec::new(), true),
    ];
    for f in &filters {
        for id in 0..dom.len() {
            let r = get_rich_text(&dom, id, f).unwrap();
            let i = get_rich_text_iter(&dom, id, f).unwrap();
            assert!(same_rich_text(&r, &i));
        }
    }
    let with_div = get_rich_text_iter(&dom, 0, &filters[1]).unwrap();
    assert_eq!(with_div.text, "one two three");
    assert_eq!(with_div.element.get_node(0).tag, "");
}

#[test]
fn markup_puts_tags_back() {
    let dom = paragraph();
    let rt = get_rich_text(&dom, 0, &no_filter()).unwrap();
    assert_eq!(rt.to_html(), "<p>What are you<b>doing </b>?</p>");
    let inline_only = TagFilter::from_lists(Vec::new(), Vec::new(), Vec::new(), vec!["b".to_owned()], true);
    let rt = get_rich_text(&dom, 0, &inline_only).unwrap();
    assert_eq!(rt.to_html(), "What are you<b>doing </b>?");
}

#[test]
fn markup_keeps_attributes() {
    let mut dom = SimpleTree::new(element_with("a", &[("href", "/x"), ("title", "t")]));
    child(&mut dom, 0, text("link"));
    let rt = get_rich_text(&dom, 0, &no_filter()).unwrap();
    assert_eq!(rt.to_html(), "<a href=\"/x\" title=\"t\">link</a>");
}

#[test]
fn test_flatten_node() {
    let (dom, s1, _) = page();
    let cx = ContextExtractor::default();
    let a = flatten_node(&dom, &cx.filter, s1);
    let b = flatten_node_recur(&dom, &cx.filter, s1);
    assert_eq!(
        texts(&a),
        vec![
            "Section 1",
            "abc def",
            "Content of section 1",
            "Section 1.1",
            "Content of section 1.1",
            "hello World .",
            "Section 1.1.1",
            "here is the section 1.1.1",
        ]
    );
    assert_eq!(a.len(), b.len());
    assert!(a.iter().zip(b.iter()).all(|(x, y)| same_rich_text(x, y)));
    assert_eq!(a[3].to_html(), "<h2>Section 1.1</h2>");
}

#[test]
fn cell_of_text_node_is_refused() {
    let mut dom = SimpleTree::new(element("td"));
    let t = child(&mut dom, 0, text("x"));
    let ex = TableExtractor::default(ContextExtractor::default());
    match ex.extract_cell(&dom, t) {
        Err(TableExtractorError::ExtractionLimitError(_)) => {},
        _ => panic!("expected a refusal"),
    }
}

#[test]
fn test_get_text_with_trace() {
    let inline_only = TableExtractor::new(ContextExtractor::default(), Some(Vec::new()), Some(Vec::new()), true).filter;
    // <p>What are you<b>doing </b>?</p>
    let mut d1 = SimpleTree::new(element("html"));
    let p = child(&mut d1, 0, element("p"));
    child(&mut d1, p, text("What are you"));
    let b = child(&mut d1, p, element("b"));
    child(&mut d1, b, text("doing "));
    child(&mut d1, p, text("?"));
    // <i></i>
    let mut d2 = SimpleTree::new(element("html"));
    child(&mut d2, 0, element("i"));
    //   <i>   </i>
    let mut d3 = SimpleTree::new(element("html"));
    child(&mut d3, 0, text("  "));
    let i3 = child(&mut d3, 0, element("i"));
    child(&mut d3, i3, text("   "));
    // <a>  Link    to<b> something</b><i></i></a>
    let link = |with_span: bool| {
        let mut d = SimpleTree::new(element("html"));
        let a = child(&mut d, 0, element("a"));
        child(&mut d, a, text("  Link    to"));
        let b = child(&mut d, a, element("b"));
        child(&mut d, b, text(" something"));
        child(&mut d, a, element("i"));
        if with_span {
            child(&mut d, a, text(" "));
            let s = child(&mut d, a, element("span"));
            child(&mut d, s, element("b"));
        }
        d
    };
    let cases = [
        (d1, "What are you<b>doing </b>?"),
        (d2, "<i></i>"),
        (d3, "  <i>   </i>"),
        (link(false), "<a>  Link    to<b> something</b><i></i></a>"),
        (link(true), "<a>  Link    to<b> something</b><i></i> <span><b></b></span></a>"),
    ];
    for (dom, expected) in cases.iter() {
        let rt = get_rich_text(dom, 0, &inline_only).unwrap();
        assert_eq!(rt.to_html(), *expected);
    }
    let dom = paragraph();
    let rt = get_rich_text(&dom, 0, &no_filter()).unwrap();
    assert_eq!(rt.text, "What are youdoing ?");
    assert_eq!(rt.element.get_node(1).start, 12);
    assert_eq!(rt.element.get_node(1).end, 18);
}

#[test]
fn test_get_text() {
    let dom = paragraph();
    assert_eq!(get_text(&dom, 0).unwrap(), "What are youdoing ?");
}

#[test]
fn repeated_attribute_names_are_found() {
    let mut dom = SimpleTree::new(element_with("td", &[("a", "1"), ("b", "2")]));
    assert!(table_extractor::dom::attrs_unique(&dom));
    child(&mut dom, 0, element_with("span", &[("id", "x"), ("class", "y"), ("id", "z")]));
    assert!(!table_extractor::dom::attrs_unique(&dom));
}
