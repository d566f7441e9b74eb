use vstd::prelude::*;

use crate::context::{copy_hierarchies, hierarchies_view, ContentHierarchy, ContentHierarchyView};
use crate::text::{attrs_view, copy_attrs, empty_rich_text_view, RichText, RichTextView};

verus! {

pub struct CellView {
    pub is_header: bool,
    pub rowspan: int,
    pub colspan: int,
    pub attrs: Seq<(Seq<char>, Seq<char>)>,
    pub value: RichTextView,
    pub html: Seq<char>,
}

pub struct RowView {
    pub cells: Seq<CellView>,
    pub attrs: Seq<(Seq<char>, Seq<char>)>,
}

pub struct TableView {
    pub id: Seq<char>,
    pub url: Seq<char>,
    pub caption: Seq<char>,
    pub attrs: Seq<(Seq<char>, Seq<char>)>,
    pub context: Seq<ContentHierarchyView>,
    pub rows: Seq<RowView>,
}

/// A cell of a table, with its spans as the markup gave them and its content
/// as rich text; `html` is the markup of the cell.
#[derive(Debug)]
pub struct Cell {
    pub is_header: bool,
    pub rowspan: u16,
    pub colspan: u16,
    pub attrs: Vec<(String, String)>,
    pub value: RichText,
    pub html: String,
}

#[derive(Debug)]
pub struct Row {
    pub cells: Vec<Cell>,
    pub attrs: Vec<(String, String)>,
}

/// A table with the heading context around it. `id` names the table within
/// its document, `url` is the document's address.
#[derive(Debug)]
pub struct Table {
    pub id: String,
    pub url: String,
    pub caption: String,
    pub attrs: Vec<(String, String)>,
    pub context: Vec<ContentHierarchy>,
    pub rows: Vec<Row>,
}

impl View for Cell {
    type V = CellView;

    open spec fn view(&self) -> CellView {
        CellView {
            is_header: self.is_header,
            rowspan: self.rowspan as int,
            colspan: self.colspan as int,
            attrs: attrs_view(self.attrs@),
            value: self.value@,
            html: self.html@,
        }
    }
}

pub open spec fn cells_view(v: Seq<Cell>) -> Seq<CellView> {
    v.map_values(|c: Cell| c@)
}

impl View for Row {
    type V = RowView;

    open spec fn view(&self) -> RowView {
        RowView { cells: cells_view(self.cells@), attrs: attrs_view(self.attrs@) }
    }
}

pub open spec fn rows_view(v: Seq<Row>) -> Seq<RowView> {
    v.map_values(|r: Row| r@)
}

impl View for Table {
    type V = TableView;

    open spec fn view(&self) -> TableView {
        TableView {
            id: self.id@,
            url: self.url@,
            caption: self.caption@,
            attrs: attrs_view(self.attrs@),
            context: hierarchies_view(self.context@),
            rows: rows_view(self.rows@),
        }
    }
}

/// The cell with both spans set to 1.
pub open spec fn unit_cell(c: CellView) -> CellView {
    CellView { rowspan: 1, colspan: 1, ..c }
}

impl Cell {
    pub fn copy(&self) -> (r: Cell)
        ensures
            r@ == self@,
    {
        Cell {
            is_header: self.is_header,
            rowspan: self.rowspan,
            colspan: self.colspan,
            attrs: copy_attrs(&self.attrs),
            value: self.value.copy(),
            html: self.html.clone(),
        }
    }

    /// A copy of the cell that spans one row and one column.
    pub fn unit_copy(&self) -> (r: Cell)
        ensures
            r@ == unit_cell(self@),
    {
        Cell {
            is_header: self.is_header,
            rowspan: 1,
            colspan: 1,
            attrs: copy_attrs(&self.attrs),
            value: self.value.copy(),
            html: self.html.clone(),
        }
    }
}

impl Row {
    pub fn copy(&self) -> (r: Row)
        ensures
            r@ == self@,
    {
        let mut cells: Vec<Cell> = Vec::new();
        let mut i: usize = 0;
        while i < self.cells.len()
            invariant
                0 <= i <= self.cells@.len(),
                cells@.len() == i,
                forall|k: int| 0 <= k < i ==> #[trigger] cells@[k]@ == self.cells@[k]@,
            decreases self.cells@.len() - i,
        {
            cells.push(self.cells[i].copy());
            i += 1;
        }
        let r = Row { cells, attrs: copy_attrs(&self.attrs) };
        assert(r@.cells =~= self@.cells);
        r
    }
}

/// The cell that fills a short row: empty, with both spans 1.
pub open spec fn padding_cell(is_header: bool) -> CellView {
    CellView {
        is_header,
        rowspan: 1,
        colspan: 1,
        attrs: Seq::empty(),
        value: empty_rich_text_view(),
        html: Seq::empty(),
    }
}

/// All rows have as many cells as the first.
pub open spec fn is_rectangular(rows: Seq<RowView>) -> bool {
    forall|i: int| 0 <= i < rows.len() ==> #[trigger] rows[i].cells.len() == rows[0].cells.len()
}

/// The largest number of cells of a row among the first `n` rows.
pub open spec fn widest(rows: Seq<RowView>, n: int) -> nat
    decreases n,
{
    if n <= 0 {
        0
    } else {
        let w = widest(rows, n - 1);
        let c = rows[n - 1].cells.len();
        if c > w {
            c
        } else {
            w
        }
    }
}

/// Whether the last cell of a row is a header; false for an empty row.
pub open spec fn ends_in_header(r: RowView) -> bool {
    r.cells.len() > 0 && r.cells.last().is_header
}

/// The row filled up to `width` cells with padding cells that are headers
/// when its last cell is one.
pub open spec fn padded_row(r: RowView, width: nat) -> RowView {
    RowView {
        cells: r.cells + Seq::new(
            (width - r.cells.len()) as nat,
            |k: int| padding_cell(ends_in_header(r)),
        ),
        attrs: r.attrs,
    }
}

/// What padding makes of a table: `None` when it is empty or rectangular.
pub open spec fn padded(t: TableView) -> Option<TableView> {
    if t.rows.len() == 0 || is_rectangular(t.rows) {
        None
    } else {
        Some(
            TableView {
                rows: t.rows.map_values(|r: RowView| padded_row(r, widest(t.rows, t.rows.len() as int))),
                ..t
            },
        )
    }
}

/// No row among the first `n` is wider than `widest(rows, n)`.
pub proof fn lemma_widest_bounds(rows: Seq<RowView>, n: int)
    requires
        0 <= n <= rows.len(),
    ensures
        forall|i: int| 0 <= i < n ==> #[trigger] rows[i].cells.len() <= widest(rows, n),
    decreases n,
{
    if n > 0 {
        lemma_widest_bounds(rows, n - 1);
    }
}

fn padding(is_header: bool) -> (r: Cell)
    ensures
        r@ == padding_cell(is_header),
{
    let r = Cell {
        is_header,
        rowspan: 1,
        colspan: 1,
        attrs: Vec::new(),
        value: RichText::empty(),
        html: String::new(),
    };
    assert(r@.attrs =~= Seq::<(Seq<char>, Seq<char>)>::empty());
    assert(r@.html =~= Seq::<char>::empty());
    r
}

impl Table {
    pub fn copy(&self) -> (r: Table)
        ensures
            r@ == self@,
    {
        let mut rows: Vec<Row> = Vec::new();
        let mut i: usize = 0;
        while i < self.rows.len()
            invariant
                0 <= i <= self.rows@.len(),
                rows@.len() == i,
                forall|k: int| 0 <= k < i ==> #[trigger] rows@[k]@ == self.rows@[k]@,
            decreases self.rows@.len() - i,
        {
            rows.push(self.rows[i].copy());
            i += 1;
        }
        let r = Table {
            id: self.id.clone(),
            url: self.url.clone(),
            caption: self.caption.clone(),
            attrs: copy_attrs(&self.attrs),
            context: copy_hierarchies(&self.context),
            rows,
        };
        assert(r@.rows =~= self@.rows);
        r
    }

    /// Fills the rows of an irregular table with empty cells, up to the width
    /// of its widest row. Returns `None` when there is nothing to fill.
    pub fn pad(&self) -> (r: Option<Table>)
        ensures
            match r {
                Some(t) => padded(self@) == Some(t@),
                None => padded(self@).is_none(),
            },
    {
        let ghost rows = self@.rows;
        if self.rows.len() == 0 {
            return None;
        }
        let ncols = self.rows[0].cells.len();
        let mut regular = true;
        let mut widest_len: usize = 0;
        let mut i: usize = 0;
        while i < self.rows.len()
            invariant
                rows == self@.rows,
                rows.len() == self.rows@.len(),
                0 <= i <= self.rows@.len(),
                ncols == rows[0].cells.len(),
                regular == (forall|k: int| 0 <= k < i ==> #[trigger] rows[k].cells.len() == ncols),
                widest_len == widest(rows, i as int),
            decreases self.rows@.len() - i,
        {
            assert(rows[i as int].cells.len() == self.rows@[i as int].cells@.len());
            let c = self.rows[i].cells.len();
            if c != ncols {
                regular = false;
            }
            if c > widest_len {
                widest_len = c;
            }
            i += 1;
        }
        if regular {
            return None;
        }
        proof {
            lemma_widest_bounds(rows, rows.len() as int);
        }
        let mut out: Vec<Row> = Vec::new();
        let mut i: usize = 0;
        while i < self.rows.len()
            invariant
                rows == self@.rows,
                rows.len() == self.rows@.len(),
                0 <= i <= self.rows@.len(),
                widest_len == widest(rows, rows.len() as int),
                forall|k: int| 0 <= k < rows.len() ==> #[trigger] rows[k].cells.len() <= widest_len,
                out@.len() == i,
                forall|k: int| 0 <= k < i ==> #[trigger] out@[k]@ == padded_row(rows[k], widest_len as nat),
            decreases self.rows@.len() - i,
        {
            let mut row = self.rows[i].copy();
            let n = row.cells.len();
            let is_header = n > 0 && row.cells[n - 1].is_header;
            assert(is_header == ends_in_header(rows[i as int]));
            let ghost start = row@.cells;
            while row.cells.len() < widest_len
                invariant
                    start.len() <= row.cells@.len() <= widest_len,
                    row@.attrs == rows[i as int].attrs,
                    row@.cells == start + Seq::new(
                        (row.cells@.len() - start.len()) as nat,
                        |k: int| padding_cell(is_header),
                    ),
                decreases widest_len - row.cells@.len(),
            {
                let ghost before = row@.cells;
                let ghost vb = row.cells@;
                let p = padding(is_header);
                row.cells.push(p);
                assert(row.cells@ == vb.push(p));
                assert(row@.cells =~= before.push(padding_cell(is_header)));
                assert(row@.cells =~= start + Seq::new(
                    (row.cells@.len() - start.len()) as nat,
                    |k: int| padding_cell(is_header),
                ));
            }
            assert(row@.cells =~= padded_row(rows[i as int], widest_len as nat).cells);
            out.push(row);
            i += 1;
        }
        let t = Table {
            id: self.id.clone(),
            url: self.url.clone(),
            caption: self.caption.clone(),
            attrs: copy_attrs(&self.attrs),
            context: copy_hierarchies(&self.context),
            rows: out,
        };
        assert(t@.rows =~= padded(self@).unwrap().rows);
        Some(t)
    }
}

} // verus!
