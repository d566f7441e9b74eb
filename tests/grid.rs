use table_extractor::error::TableExtractorError;
use table_extractor::table::{Cell, Row, Table};
use table_extractor::text::RichText;

fn cell(name: &str, colspan: u16, rowspan: u16) -> Cell {
    Cell {
        is_header: false,
        rowspan,
        colspan,
        attrs: Vec::new(),
        value: RichText::empty(),
        html: name.to_owned(),
    }
}

fn header(name: &str) -> Cell {
    let mut c = cell(name, 1, 1);
    c.is_header = true;
    c
}

fn table(rows: Vec<Vec<Cell>>) -> Table {
    Table {
        id: String::new(),
        url: String::new(),
        caption: "cap".to_owned(),
        attrs: Vec::new(),
        context: Vec::new(),
        rows: rows.into_iter().map(|cells| Row { cells, attrs: Vec::new() }).collect(),
    }
}

fn names(t: &Table) -> Vec<Vec<String>> {
    t.rows.iter().map(|r| r.cells.iter().map(|c| c.html.clone()).collect()).collect()
}

#[test]
fn span_of_unit_cells_is_unchanged() {
    let t = table(vec![vec![cell("a", 1, 1), cell("b", 1, 1)], vec![cell("c", 1, 1)]]);
    let s = t.span().unwrap();
    assert_eq!(names(&s), vec![vec!["a", "b"], vec!["c"]]);
    assert_eq!(s.caption, "cap");
    assert!(s.rows.iter().all(|r| r.cells.iter().all(|c| c.colspan == 1 && c.rowspan == 1)));
}

#[test]
fn span_copies_spanned_cells() {
    let t = table(vec![
        vec![cell("a", 2, 1), cell("b", 1, 2)],
        vec![cell("c", 1, 1), cell("d", 1, 1)],
    ]);
    let s = t.span().unwrap();
    assert_eq!(names(&s), vec![vec!["a", "a", "b"], vec!["c", "d", "b"]]);
    assert!(s.rows.iter().all(|r| r.cells.iter().all(|c| c.colspan == 1 && c.rowspan == 1)));
}

#[test]
fn rowspan_meeting_colspan_overlaps() {
    let t = table(vec![
        vec![cell("a", 1, 1), cell("b", 1, 2)],
        vec![cell("c", 2, 1), cell("d", 1, 1)],
    ]);
    match t.span() {
        Err(TableExtractorError::OverlapSpanError(_)) => {},
        _ => panic!("expected an overlap"),
    }
}

#[test]
fn overflowing_colspan_before_last_cell_is_invalid() {
    let t = table(vec![vec![cell("a", 5, 1), cell("b", 1, 1)], vec![cell("c", 1, 1), cell("d", 1, 1)]]);
    match t.span() {
        Err(TableExtractorError::InvalidCellSpanError(_)) => {},
        _ => panic!("expected an invalid span"),
    }
}

#[test]
fn overflowing_colspan_on_last_cell_is_clamped() {
    let t = table(vec![vec![cell("a", 1, 1), cell("b", 5, 1)], vec![cell("c", 1, 1), cell("d", 1, 1)]]);
    let s = t.span().unwrap();
    assert_eq!(names(&s), vec![vec!["a", "b"], vec!["c", "d"]]);
}

#[test]
fn pad_of_rectangular_table_is_none() {
    let t = table(vec![vec![cell("a", 1, 1), cell("b", 1, 1)], vec![cell("c", 1, 1), cell("d", 1, 1)]]);
    assert!(t.pad().is_none());
    assert!(table(vec![]).pad().is_none());
}

#[test]
fn pad_fills_short_rows() {
    let t = table(vec![vec![header("h"), header("i"), header("j")], vec![header("k")], vec![cell("x", 1, 1)]]);
    let p = t.pad().unwrap();
    assert!(p.rows.iter().all(|r| r.cells.len() == 3));
    assert!(p.rows[1].cells[2].is_header);
    assert!(!p.rows[2].cells[1].is_header);
    assert_eq!(p.rows[2].cells[2].html, "");
    assert_eq!(p.rows[2].cells[2].value.text, "");
}

#[test]
fn span_then_pad_is_rectangular() {
    let t = table(vec![
        vec![cell("a", 1, 3), cell("b", 2, 1)],
        vec![cell("c", 1, 1)],
        vec![],
        vec![cell("d", 1, 1), cell("e", 1, 1), cell("f", 1, 1)],
    ]);
    let s = t.span().unwrap();
    let p = s.pad().unwrap_or(s);
    let w = p.rows[0].cells.len();
    assert!(p.rows.iter().all(|r| r.cells.len() == w));
    assert!(p.rows.iter().all(|r| r.cells.iter().all(|c| c.colspan == 1 && c.rowspan == 1)));
}
