use vstd::prelude::*;

use crate::error::TableExtractorError;
use crate::table::{
    cells_view, is_rectangular, lemma_widest_bounds, padded, padded_row, rows_view, unit_cell,
    widest, Cell, CellView, Row, RowView, Table, TableView,
};
use crate::text::copy_attrs;
use crate::context::copy_hierarchies;

verus! {

/// The two ways in which resolving spans can fail.
pub enum SpanFailure {
    InvalidCellSpan,
    OverlapSpan,
}

/// Cells that earlier rows project into later ones, by row and column.
pub type PendingView = Seq<Seq<Option<CellView>>>;

pub open spec fn pending_at(g: PendingView, r: int, c: int) -> Option<CellView> {
    if 0 <= r < g.len() && 0 <= c < g[r].len() {
        g[r][c]
    } else {
        None
    }
}

/// Records `v` at row `r`, column `c`; rows past the table are dropped.
pub open spec fn pending_put(g: PendingView, r: int, c: int, v: CellView) -> PendingView {
    if 0 <= r < g.len() && 0 <= c {
        let row = if c < g[r].len() {
            g[r]
        } else {
            g[r] + Seq::new((c + 1 - g[r].len()) as nat, |k: int| None::<CellView>)
        };
        g.update(r, row.update(c, Some(v)))
    } else {
        g
    }
}

pub open spec fn pending_clear(g: PendingView, r: int, c: int) -> PendingView {
    if 0 <= r < g.len() && 0 <= c < g[r].len() {
        g.update(r, g[r].update(c, None))
    } else {
        g
    }
}

pub open spec fn drain_measure(g: PendingView, r: int, col: int) -> int {
    if 0 <= r < g.len() && col < g[r].len() {
        g[r].len() - col
    } else {
        0
    }
}

/// Moves the cells owed to row `r` from the column where `row` ends on into
/// `row`, for as long as there are some.
pub open spec fn drain(g: PendingView, r: int, row: Seq<CellView>) -> (PendingView, Seq<CellView>)
    decreases drain_measure(g, r, row.len() as int),
{
    match pending_at(g, r, row.len() as int) {
        Some(v) => drain(pending_clear(g, r, row.len() as int), r, row.push(v)),
        None => (g, row),
    }
}

/// As `drain`, stopping when `row` has `width` cells.
pub open spec fn drain_upto(g: PendingView, r: int, row: Seq<CellView>, width: int) -> (
    PendingView,
    Seq<CellView>,
)
    decreases drain_measure(g, r, row.len() as int),
{
    if row.len() < width {
        match pending_at(g, r, row.len() as int) {
            Some(v) => drain_upto(pending_clear(g, r, row.len() as int), r, row.push(v), width),
            None => (g, row),
        }
    } else {
        (g, row)
    }
}

/// Projects `v` at column `c` into the rows `r + 1 .. r + n - 1`.
pub open spec fn register(g: PendingView, r: int, c: int, v: CellView, n: int) -> PendingView
    decreases n,
{
    if n <= 1 {
        g
    } else {
        pending_put(register(g, r, c, v, n - 1), r + n - 1, c, v)
    }
}

/// Places `remaining` more copies of `cell` in row `r`. Reaching the table's
/// width ends the placing, which is an error unless the cell is its row's last.
pub open spec fn place(
    g: PendingView,
    row: Seq<CellView>,
    r: int,
    cell: CellView,
    remaining: int,
    is_last: bool,
    width: int,
) -> Result<(PendingView, Seq<CellView>), SpanFailure>
    decreases remaining,
{
    if remaining <= 0 {
        Ok((g, row))
    } else if pending_at(g, r, row.len() as int) is Some {
        Err(SpanFailure::OverlapSpan)
    } else {
        let u = unit_cell(cell);
        let g2 = register(g, r, row.len() as int, u, cell.rowspan);
        let row2 = row.push(u);
        if row2.len() >= width {
            if is_last {
                Ok((g2, row2))
            } else {
                Err(SpanFailure::InvalidCellSpan)
            }
        } else {
            place(g2, row2, r, cell, remaining - 1, is_last, width)
        }
    }
}

/// Places the cells `cells[k..]` of row `r`, each after the cells owed to the
/// row at that point.
pub open spec fn place_cells(
    g: PendingView,
    row: Seq<CellView>,
    r: int,
    cells: Seq<CellView>,
    k: int,
    width: int,
) -> Result<(PendingView, Seq<CellView>), SpanFailure>
    decreases cells.len() - k,
{
    if k < 0 || k >= cells.len() {
        Ok((g, row))
    } else {
        let (g1, row1) = drain(g, r, row);
        match place(g1, row1, r, cells[k], cells[k].colspan, k == cells.len() - 1, width) {
            Ok((g2, row2)) => place_cells(g2, row2, r, cells, k + 1, width),
            Err(e) => Err(e),
        }
    }
}

/// The rows `rows[i..]` with their spans resolved, after the rows `done`.
pub open spec fn span_rows(
    rows: Seq<RowView>,
    i: int,
    g: PendingView,
    done: Seq<RowView>,
    width: int,
) -> Result<Seq<RowView>, SpanFailure>
    decreases rows.len() - i,
{
    if i < 0 || i >= rows.len() {
        Ok(done)
    } else {
        match place_cells(g, seq![], i, rows[i].cells, 0, width) {
            Ok((g1, row1)) => {
                let (g2, row2) = drain_upto(g1, i, row1, width);
                span_rows(rows, i + 1, g2, done.push(RowView { cells: row2, attrs: rows[i].attrs }), width)
            },
            Err(e) => Err(e),
        }
    }
}

/// How many cells of `cells` span more than `d` rows.
pub open spec fn reaching(cells: Seq<CellView>, d: int) -> nat
    decreases cells.len(),
{
    if cells.len() == 0 {
        0
    } else {
        reaching(cells.drop_last(), d) + if cells.last().rowspan > d {
            1nat
        } else {
            0nat
        }
    }
}

/// How many cells of the rows before `k` span down into row `i`.
pub open spec fn owed(rows: Seq<RowView>, i: int, k: int) -> nat
    decreases k,
{
    if k <= 0 {
        0
    } else {
        owed(rows, i, k - 1) + reaching(rows[k - 1].cells, i - (k - 1))
    }
}

/// The number of columns that row `i` takes: its own cells and those that
/// earlier rows span down into it.
pub open spec fn row_width(rows: Seq<RowView>, i: int) -> nat {
    rows[i].cells.len() + owed(rows, i, i)
}

/// The largest row width among the first `n` rows.
pub open spec fn column_count(rows: Seq<RowView>, n: int) -> nat
    decreases n,
{
    if n <= 0 {
        0
    } else {
        let w = column_count(rows, n - 1);
        if row_width(rows, n - 1) > w {
            row_width(rows, n - 1)
        } else {
            w
        }
    }
}

/// The number of cells in the first `n` rows.
pub open spec fn cell_total(rows: Seq<RowView>, n: int) -> nat
    decreases n,
{
    if n <= 0 {
        0
    } else {
        cell_total(rows, n - 1) + rows[n - 1].cells.len()
    }
}

pub open spec fn no_pending(n: nat) -> PendingView {
    Seq::new(n, |k: int| Seq::<Option<CellView>>::empty())
}

/// What resolving the spans of a table gives: each cell copied, with both
/// spans 1, into every position that it covers.
pub open spec fn spanned(t: TableView) -> Result<TableView, SpanFailure> {
    if t.rows.len() == 0 {
        Ok(t)
    } else {
        match span_rows(
            t.rows,
            0,
            no_pending(t.rows.len()),
            seq![],
            column_count(t.rows, t.rows.len() as int) as int,
        ) {
            Ok(rows) => Ok(TableView { rows, ..t }),
            Err(e) => Err(e),
        }
    }
}

pub open spec fn option_view(o: Option<Cell>) -> Option<CellView> {
    match o {
        Some(c) => Some(c@),
        None => None,
    }
}

pub open spec fn pending_view(p: Seq<Vec<Option<Cell>>>) -> PendingView {
    p.map_values(|r: Vec<Option<Cell>>| r@.map_values(|o: Option<Cell>| option_view(o)))
}

fn has_pending(p: &Vec<Vec<Option<Cell>>>, r: usize, c: usize) -> (b: bool)
    ensures
        b == pending_at(pending_view(p@), r as int, c as int) is Some,
{
    r < p.len() && c < p[r].len() && p[r][c].is_some()
}

fn take_pending(p: &mut Vec<Vec<Option<Cell>>>, r: usize, c: usize) -> (o: Option<Cell>)
    ensures
        option_view(o) == pending_at(pending_view(old(p)@), r as int, c as int),
        pending_view(final(p)@) == pending_clear(pending_view(old(p)@), r as int, c as int),
{
    if r < p.len() && c < p[r].len() {
        let mut row: Vec<Option<Cell>> = Vec::new();
        std::mem::swap(&mut row, &mut p[r]);
        let mut o: Option<Cell> = None;
        std::mem::swap(&mut o, &mut row[c]);
        let ghost mid = row@;
        row.set(c, None);
        p.set(r, row);
        proof {
            let want = pending_clear(pending_view(old(p)@), r as int, c as int);
            assert(pending_view(p@)[r as int] =~= want[r as int]);
            assert(pending_view(p@) =~= want);
        }
        o
    } else {
        None
    }
}

fn put_pending(p: &mut Vec<Vec<Option<Cell>>>, r: usize, c: usize, cell: Cell)
    ensures
        pending_view(final(p)@) == pending_put(pending_view(old(p)@), r as int, c as int, cell@),
{
    if r < p.len() {
        let mut row: Vec<Option<Cell>> = Vec::new();
        std::mem::swap(&mut row, &mut p[r]);
        let ghost start = row@;
        while row.len() <= c
            invariant
                start.len() <= row@.len(),
                row@.len() <= c + 1 || row@.len() == start.len(),
                row@ == start + Seq::new((row@.len() - start.len()) as nat, |k: int| None::<Cell>),
            decreases c + 1 - row@.len(),
        {
            row.push(None);
            assert(row@ =~= start + Seq::new((row@.len() - start.len()) as nat, |k: int| None::<Cell>));
        }
        let ghost grown = row@;
        row.set(c, Some(cell));
        p.set(r, row);
        proof {
            let want = pending_put(pending_view(old(p)@), r as int, c as int, cell@);
            let old_row = pending_view(old(p)@)[r as int];
            assert(old_row.len() == start.len());
            if c < start.len() {
                assert(grown =~= start);
            } else {
                assert(grown.len() == c + 1);
            }
            assert(pending_view(p@)[r as int] =~= want[r as int]);
            assert(pending_view(p@) =~= want);
        }
    }
}

pub open spec fn failure_of(e: TableExtractorError) -> SpanFailure {
    match e {
        TableExtractorError::OverlapSpanError(_) => SpanFailure::OverlapSpan,
        _ => SpanFailure::InvalidCellSpan,
    }
}

fn drain_exec(p: &mut Vec<Vec<Option<Cell>>>, r: usize, row: &mut Vec<Cell>, width: usize, bounded: bool)
    ensures
        (pending_view(final(p)@), cells_view(final(row)@)) == if bounded {
            drain_upto(pending_view(old(p)@), r as int, cells_view(old(row)@), width as int)
        } else {
            drain(pending_view(old(p)@), r as int, cells_view(old(row)@))
        },
{
    loop
        invariant
            (if bounded {
                drain_upto(pending_view(old(p)@), r as int, cells_view(old(row)@), width as int)
            } else {
                drain(pending_view(old(p)@), r as int, cells_view(old(row)@))
            }) == (if bounded {
                drain_upto(pending_view(p@), r as int, cells_view(row@), width as int)
            } else {
                drain(pending_view(p@), r as int, cells_view(row@))
            }),
        decreases drain_measure(pending_view(p@), r as int, row@.len() as int),
    {
        if bounded && row.len() >= width {
            return ;
        }
        let c = row.len();
        let ghost g = pending_view(p@);
        let ghost before = cells_view(row@);
        assert(before.len() == c);
        match take_pending(p, r, c) {
            Some(cell) => {
                let ghost v = cell@;
                row.push(cell);
                assert(cells_view(row@) =~= before.push(v));
            },
            None => {
                proof {
                    if 0 <= r < g.len() && c < g[r as int].len() {
                        assert(g[r as int].update(c as int, None) =~= g[r as int]);
                        assert(g.update(r as int, g[r as int].update(c as int, None)) =~= g);
                    }
                }
                return ;
            },
        }
    }
}

fn register_exec(p: &mut Vec<Vec<Option<Cell>>>, r: usize, c: usize, cell: &Cell, n: u16)
    ensures
        pending_view(final(p)@) == register(pending_view(old(p)@), r as int, c as int, cell@, n as int),
{
    let ghost g = pending_view(p@);
    let mut k: u16 = 1;
    loop
        invariant
            1 <= k,
            k <= n || k == 1,
            pending_view(p@) == register(g, r as int, c as int, cell@, k as int),
            g == pending_view(old(p)@),
        decreases n - k,
    {
        if k >= n {
            assert(register(g, r as int, c as int, cell@, 1) == g);
            assert(register(g, r as int, c as int, cell@, 0) == g);
            return ;
        }
        let rows = p.len();
        if (k as usize) < rows && r < rows - (k as usize) {
            put_pending(p, r + k as usize, c, cell.copy());
        }
        k += 1;
    }
}

fn place_exec(
    p: &mut Vec<Vec<Option<Cell>>>,
    row: &mut Vec<Cell>,
    r: usize,
    cell: &Cell,
    is_last: bool,
    width: usize,
) -> (res: Result<(), TableExtractorError>)
    ensures
        match res {
            Ok(_) => place(
                pending_view(old(p)@),
                cells_view(old(row)@),
                r as int,
                cell@,
                cell@.colspan,
                is_last,
                width as int,
            ) == Ok::<(PendingView, Seq<CellView>), SpanFailure>(
                (pending_view(final(p)@), cells_view(final(row)@)),
            ),
            Err(e) => place(
                pending_view(old(p)@),
                cells_view(old(row)@),
                r as int,
                cell@,
                cell@.colspan,
                is_last,
                width as int,
            ) == Err::<(PendingView, Seq<CellView>), SpanFailure>(failure_of(e)) && !(
            e is InvalidUrlError) && (e is InvalidCellSpanError || e is OverlapSpanError),
        },
{
    let ghost whole = place(
        pending_view(p@),
        cells_view(row@),
        r as int,
        cell@,
        cell@.colspan,
        is_last,
        width as int,
    );
    let mut remaining: u16 = cell.colspan;
    while remaining > 0
        invariant
            whole == place(
                pending_view(old(p)@),
                cells_view(old(row)@),
                r as int,
                cell@,
                cell@.colspan,
                is_last,
                width as int,
            ),
            whole == place(
                pending_view(p@),
                cells_view(row@),
                r as int,
                cell@,
                remaining as int,
                is_last,
                width as int,
            ),
        decreases remaining,
    {
        let c = row.len();
        assert(cells_view(row@).len() == c);
        if has_pending(p, r, c) {
            return Err(TableExtractorError::OverlapSpanError(String::new()));
        }
        let unit = cell.unit_copy();
        register_exec(p, r, c, &unit, cell.rowspan);
        let ghost before = cells_view(row@);
        let ghost u = unit@;
        row.push(unit);
        assert(cells_view(row@) =~= before.push(u));
        if row.len() >= width {
            if is_last {
                return Ok(());
            } else {
                return Err(TableExtractorError::InvalidCellSpanError(String::new()));
            }
        }
        remaining -= 1;
    }
    Ok(())
}

pub(crate) proof fn lemma_cell_total_monotone(rows: Seq<RowView>, a: int, b: int)
    requires
        0 <= a <= b,
    ensures
        cell_total(rows, a) <= cell_total(rows, b),
    decreases b - a,
{
    if a < b {
        lemma_cell_total_monotone(rows, a, b - 1);
    }
}

fn column_count_exec(rows: &Vec<Row>) -> (w: usize)
    requires
        cell_total(rows_view(rows@), rows@.len() as int) <= usize::MAX,
    ensures
        w == column_count(rows_view(rows@), rows@.len() as int),
{
    let ghost rv = rows_view(rows@);
    let n = rows.len();
    let mut best: usize = 0;
    let mut i: usize = 0;
    while i < n
        invariant
            n == rows@.len(),
            rv == rows_view(rows@),
            cell_total(rv, n as int) <= usize::MAX,
            0 <= i <= n,
            best == column_count(rv, i as int),
        decreases n - i,
    {
        let ghost own = rv[i as int].cells.len();
        let mut w: usize = rows[i].cells.len();
        let mut k: usize = 0;
        while k < i
            invariant
                n == rows@.len(),
                rv == rows_view(rows@),
                cell_total(rv, n as int) <= usize::MAX,
                0 <= k <= i < n,
                own == rv[i as int].cells.len(),
                w == own + owed(rv, i as int, k as int),
                w <= own + cell_total(rv, k as int),
            decreases i - k,
        {
            let cells = &rows[k].cells;
            let ghost cv = rv[k as int].cells;
            assert(cv == cells_view(cells@));
            let mut j: usize = 0;
            while j < cells.len()
                invariant
                    n == rows@.len(),
                    rv == rows_view(rows@),
                    cell_total(rv, n as int) <= usize::MAX,
                    0 <= k < i < n,
                    cv == rv[k as int].cells,
                    cv == cells_view(cells@),
                    own == rv[i as int].cells.len(),
                    0 <= j <= cells@.len(),
                    w == own + owed(rv, i as int, k as int) + reaching(cv.take(j as int), i - k),
                    w <= own + cell_total(rv, k as int) + j,
                decreases cells@.len() - j,
            {
                proof {
                    lemma_cell_total_monotone(rv, k + 1, i as int);
                    lemma_cell_total_monotone(rv, i + 1, n as int);
                    assert(cv.take(j + 1).drop_last() =~= cv.take(j as int));
                }
                if cells[j].rowspan as usize > i - k {
                    w += 1;
                }
                j += 1;
            }
            assert(cv.take(j as int) =~= cv);
            k += 1;
        }
        if w > best {
            best = w;
        }
        i += 1;
    }
    best
}

impl Table {
    /// Resolves column and row spans: every cell is copied, with both spans
    /// set to 1, into each position that it covers, so that every row lists
    /// its cells one column at a time.
    pub fn span(&self) -> (r: Result<Table, TableExtractorError>)
        requires
            cell_total(self@.rows, self@.rows.len() as int) <= usize::MAX,
        ensures
            match r {
                Ok(t) => spanned(self@) == Ok::<TableView, SpanFailure>(t@),
                Err(e) => spanned(self@) == Err::<TableView, SpanFailure>(failure_of(e))
                    && (e is InvalidCellSpanError || e is OverlapSpanError),
            },
    {
        if self.rows.len() == 0 {
            return Ok(self.copy());
        }
        let ghost rv = self@.rows;
        let n = self.rows.len();
        let width = column_count_exec(&self.rows);
        let mut pending: Vec<Vec<Option<Cell>>> = Vec::new();
        let mut i: usize = 0;
        while i < n
            invariant
                0 <= i <= n,
                pending@.len() == i,
                forall|k: int| 0 <= k < i ==> (#[trigger] pending@[k])@.len() == 0,
            decreases n - i,
        {
            pending.push(Vec::new());
            i += 1;
        }
        proof {
            let pv = pending_view(pending@);
            assert forall|k: int| 0 <= k < n implies #[trigger] pv[k] == no_pending(n as nat)[k] by {
                assert(pv[k] =~= Seq::<Option<CellView>>::empty());
            }
            assert(pv =~= no_pending(n as nat));
        }
        let ghost whole = span_rows(rv, 0, no_pending(n as nat), seq![], width as int);
        let mut data: Vec<Row> = Vec::new();
        assert(rows_view(data@) =~= seq![]);
        let mut pi: usize = 0;
        while pi < n
            invariant
                n == self.rows@.len(),
                rv == self@.rows,
                0 <= pi <= n,
                width == column_count(rv, n as int),
                whole == span_rows(rv, 0, no_pending(n as nat), seq![], width as int),
                whole == span_rows(rv, pi as int, pending_view(pending@), rows_view(data@), width as int),
            decreases n - pi,
        {
            let row = &self.rows[pi];
            let ghost cv = rv[pi as int].cells;
            assert(cv == cells_view(row.cells@));
            let ghost g0 = pending_view(pending@);
            let ghost done = rows_view(data@);
            let ghost row_whole = place_cells(g0, seq![], pi as int, cv, 0, width as int);
            let mut new_row: Vec<Cell> = Vec::new();
            assert(cells_view(new_row@) =~= seq![]);
            let mut ci: usize = 0;
            while ci < row.cells.len()
                invariant
                    n == self.rows@.len(),
                    rv == self@.rows,
                    0 <= pi < n,
                    width == column_count(rv, n as int),
                    whole == span_rows(rv, 0, no_pending(n as nat), seq![], width as int),
                    cv == rv[pi as int].cells,
                    cv == cells_view(row.cells@),
                    0 <= ci <= cv.len(),
                    whole == span_rows(rv, pi as int, g0, done, width as int),
                    row_whole == place_cells(g0, seq![], pi as int, cv, 0, width as int),
                    row_whole == place_cells(
                        pending_view(pending@),
                        cells_view(new_row@),
                        pi as int,
                        cv,
                        ci as int,
                        width as int,
                    ),
                decreases cv.len() - ci,
            {
                drain_exec(&mut pending, pi, &mut new_row, width, false);
                let is_last = ci == row.cells.len() - 1;
                match place_exec(&mut pending, &mut new_row, pi, &row.cells[ci], is_last, width) {
                    Ok(_) => {},
                    Err(e) => {
                        proof {
                            assert(row.cells@[ci as int]@ == cv[ci as int]);
                            assert(row_whole == Err::<(PendingView, Seq<CellView>), SpanFailure>(
                                failure_of(e),
                            ));
                            assert(whole == Err::<Seq<RowView>, SpanFailure>(failure_of(e)));
                        }
                        return Err(e);
                    },
                }
                ci += 1;
            }
            drain_exec(&mut pending, pi, &mut new_row, width, true);
            let ghost before = rows_view(data@);
            let new = Row { cells: new_row, attrs: copy_attrs(&row.attrs) };
            data.push(new);
            assert(rows_view(data@) =~= before.push(new@));
            pi += 1;
        }
        let t = Table {
            id: self.id.clone(),
            url: self.url.clone(),
            caption: self.caption.clone(),
            attrs: copy_attrs(&self.attrs),
            context: copy_hierarchies(&self.context),
            rows: data,
        };
        Ok(t)
    }
}

/// Every cell of every row spans one row and one column.
pub open spec fn all_unit(rows: Seq<RowView>) -> bool {
    forall|i: int, j: int|
        0 <= i < rows.len() && 0 <= j < rows[i].cells.len() ==> (#[trigger] rows[i].cells[j]).rowspan
            == 1 && rows[i].cells[j].colspan == 1
}

pub open spec fn unit_seq(cells: Seq<CellView>) -> bool {
    forall|j: int| 0 <= j < cells.len() ==> (#[trigger] cells[j]).rowspan == 1 && cells[j].colspan == 1
}

pub open spec fn unit_pending(g: PendingView) -> bool {
    forall|r: int, c: int|
        #![trigger pending_at(g, r, c)]
        pending_at(g, r, c) is Some ==> pending_at(g, r, c)->Some_0.rowspan == 1 && pending_at(
            g,
            r,
            c,
        )->Some_0.colspan == 1
}

proof fn lemma_put_unit(g: PendingView, r: int, c: int, v: CellView)
    requires
        unit_pending(g),
        v.rowspan == 1 && v.colspan == 1,
    ensures
        unit_pending(pending_put(g, r, c, v)),
{
    let g2 = pending_put(g, r, c, v);
    assert forall|a: int, b: int| #[trigger] pending_at(g2, a, b) is Some implies pending_at(g2, a, b)->Some_0.rowspan
        == 1 && pending_at(g2, a, b)->Some_0.colspan == 1 by {
        if a == r && b == c {
        } else if 0 <= r < g.len() && 0 <= c && a == r && b >= g[r].len() {
        } else {
            assert(pending_at(g2, a, b) == pending_at(g, a, b));
        }
    }
}

proof fn lemma_clear_unit(g: PendingView, r: int, c: int)
    requires
        unit_pending(g),
    ensures
        unit_pending(pending_clear(g, r, c)),
{
    let g2 = pending_clear(g, r, c);
    assert forall|a: int, b: int| #[trigger] pending_at(g2, a, b) is Some implies pending_at(g2, a, b)->Some_0.rowspan
        == 1 && pending_at(g2, a, b)->Some_0.colspan == 1 by {
        if !(a == r && b == c) {
            assert(pending_at(g2, a, b) == pending_at(g, a, b));
        }
    }
}

proof fn lemma_register_unit(g: PendingView, r: int, c: int, v: CellView, n: int)
    requires
        unit_pending(g),
        v.rowspan == 1 && v.colspan == 1,
    ensures
        unit_pending(register(g, r, c, v, n)),
    decreases n,
{
    if n > 1 {
        lemma_register_unit(g, r, c, v, n - 1);
        lemma_put_unit(register(g, r, c, v, n - 1), r + n - 1, c, v);
    }
}

proof fn lemma_drain_unit(g: PendingView, r: int, row: Seq<CellView>, width: int, bounded: bool)
    requires
        unit_pending(g),
        unit_seq(row),
    ensures
        ({
            let (g2, row2) = if bounded {
                drain_upto(g, r, row, width)
            } else {
                drain(g, r, row)
            };
            unit_pending(g2) && unit_seq(row2)
        }),
    decreases drain_measure(g, r, row.len() as int),
{
    if bounded && row.len() >= width {
    } else {
        match pending_at(g, r, row.len() as int) {
            Some(v) => {
                lemma_clear_unit(g, r, row.len() as int);
                assert(unit_seq(row.push(v)));
                lemma_drain_unit(pending_clear(g, r, row.len() as int), r, row.push(v), width, bounded);
            },
            None => {},
        }
    }
}

proof fn lemma_place_unit(
    g: PendingView,
    row: Seq<CellView>,
    r: int,
    cell: CellView,
    remaining: int,
    is_last: bool,
    width: int,
)
    requires
        unit_pending(g),
        unit_seq(row),
    ensures
        place(g, row, r, cell, remaining, is_last, width) matches Ok((g2, row2)) ==> unit_pending(g2)
            && unit_seq(row2),
    decreases remaining,
{
    if remaining > 0 && pending_at(g, r, row.len() as int) is None {
        let u = unit_cell(cell);
        lemma_register_unit(g, r, row.len() as int, u, cell.rowspan);
        assert(unit_seq(row.push(u)));
        lemma_place_unit(
            register(g, r, row.len() as int, u, cell.rowspan),
            row.push(u),
            r,
            cell,
            remaining - 1,
            is_last,
            width,
        );
    }
}

proof fn lemma_place_cells_unit(
    g: PendingView,
    row: Seq<CellView>,
    r: int,
    cells: Seq<CellView>,
    k: int,
    width: int,
)
    requires
        unit_pending(g),
        unit_seq(row),
    ensures
        place_cells(g, row, r, cells, k, width) matches Ok((g2, row2)) ==> unit_pending(g2)
            && unit_seq(row2),
    decreases cells.len() - k,
{
    if 0 <= k < cells.len() {
        lemma_drain_unit(g, r, row, width, false);
        let (g1, row1) = drain(g, r, row);
        lemma_place_unit(g1, row1, r, cells[k], cells[k].colspan, k == cells.len() - 1, width);
        match place(g1, row1, r, cells[k], cells[k].colspan, k == cells.len() - 1, width) {
            Ok((g2, row2)) => lemma_place_cells_unit(g2, row2, r, cells, k + 1, width),
            Err(_) => {},
        }
    }
}

proof fn lemma_span_rows_unit(
    rows: Seq<RowView>,
    i: int,
    g: PendingView,
    done: Seq<RowView>,
    width: int,
)
    requires
        unit_pending(g),
        all_unit(done),
    ensures
        span_rows(rows, i, g, done, width) matches Ok(out) ==> all_unit(out),
    decreases rows.len() - i,
{
    if 0 <= i < rows.len() {
        assert(unit_seq(Seq::<CellView>::empty()));
        lemma_place_cells_unit(g, seq![], i, rows[i].cells, 0, width);
        match place_cells(g, seq![], i, rows[i].cells, 0, width) {
            Ok((g1, row1)) => {
                lemma_drain_unit(g1, i, row1, width, true);
                let (g2, row2) = drain_upto(g1, i, row1, width);
                let done2 = done.push(RowView { cells: row2, attrs: rows[i].attrs });
                assert(all_unit(done2)) by {
                    assert forall|a: int, b: int|
                        0 <= a < done2.len() && 0 <= b < done2[a].cells.len() implies (
                        #[trigger] done2[a].cells[b]).rowspan == 1 && done2[a].cells[b].colspan
                        == 1 by {
                        if a < done.len() {
                            assert(done2[a] == done[a]);
                        }
                    }
                }
                lemma_span_rows_unit(rows, i + 1, g2, done2, width);
            },
            Err(_) => {},
        }
    }
}

/// Resolving spans and then padding gives a grid: every row has the same
/// number of cells, and every cell spans one row and one column.
pub proof fn lemma_span_then_pad_is_grid(t: TableView)
    requires
        spanned(t) is Ok,
    ensures
        ({
            let s = spanned(t)->Ok_0;
            let p = match padded(s) {
                Some(p) => p,
                None => s,
            };
            is_rectangular(p.rows) && all_unit(p.rows)
        }),
{
    let s = spanned(t)->Ok_0;
    if t.rows.len() == 0 {
        assert(s.rows.len() == 0);
    } else {
        let n = t.rows.len();
        assert forall|r: int, c: int| #[trigger] pending_at(no_pending(n), r, c) is None by {}
        assert(all_unit(Seq::<RowView>::empty()));
        lemma_span_rows_unit(
            t.rows,
            0,
            no_pending(n),
            seq![],
            column_count(t.rows, n as int) as int,
        );
    }
    assert(all_unit(s.rows));
    match padded(s) {
        Some(p) => {
            let w = widest(s.rows, s.rows.len() as int);
            lemma_widest_bounds(s.rows, s.rows.len() as int);
            assert forall|i: int| 0 <= i < p.rows.len() implies #[trigger] p.rows[i].cells.len()
                == p.rows[0].cells.len() by {
                assert(p.rows[i] == padded_row(s.rows[i], w));
                assert(p.rows[0] == padded_row(s.rows[0], w));
            }
            assert forall|i: int, j: int|
                0 <= i < p.rows.len() && 0 <= j < p.rows[i].cells.len() implies (
                #[trigger] p.rows[i].cells[j]).rowspan == 1 && p.rows[i].cells[j].colspan == 1 by {
                let r = s.rows[i];
                assert(p.rows[i] == padded_row(r, w));
                if j < r.cells.len() {
                    assert(p.rows[i].cells[j] == r.cells[j]);
                }
            }
        },
        None => {},
    }
}

proof fn lemma_reaching_unit(cells: Seq<CellView>, d: int)
    requires
        unit_seq(cells),
        d >= 1,
    ensures
        reaching(cells, d) == 0,
    decreases cells.len(),
{
    if cells.len() > 0 {
        assert(unit_seq(cells.drop_last())) by {
            assert forall|j: int| 0 <= j < cells.drop_last().len() implies (
            #[trigger] cells.drop_last()[j]).rowspan == 1 && cells.drop_last()[j].colspan == 1 by {
                assert(cells.drop_last()[j] == cells[j]);
            }
        }
        lemma_reaching_unit(cells.drop_last(), d);
        assert(cells[cells.len() - 1].rowspan == 1);
    }
}

proof fn lemma_owed_unit(rows: Seq<RowView>, i: int, k: int)
    requires
        all_unit(rows),
        0 <= k <= i < rows.len(),
    ensures
        owed(rows, i, k) == 0,
    decreases k,
{
    if k > 0 {
        lemma_owed_unit(rows, i, k - 1);
        assert(unit_seq(rows[k - 1].cells)) by {
            assert forall|j: int| 0 <= j < rows[k - 1].cells.len() implies (
            #[trigger] rows[k - 1].cells[j]).rowspan == 1 && rows[k - 1].cells[j].colspan == 1 by {
                assert(rows[k - 1].cells[j].rowspan == 1);
            }
        }
        lemma_reaching_unit(rows[k - 1].cells, i - (k - 1));
    }
}

proof fn lemma_column_count_bounds(rows: Seq<RowView>, n: int, i: int)
    requires
        0 <= i < n <= rows.len(),
    ensures
        row_width(rows, i) <= column_count(rows, n),
    decreases n,
{
    if i < n - 1 {
        lemma_column_count_bounds(rows, n - 1, i);
    }
}

proof fn lemma_place_cells_unchanged(
    g: PendingView,
    r: int,
    cells: Seq<CellView>,
    k: int,
    width: int,
)
    requires
        forall|a: int, b: int| #![trigger pending_at(g, a, b)] pending_at(g, a, b) is None,
        unit_seq(cells),
        0 <= k <= cells.len() <= width,
    ensures
        place_cells(g, cells.take(k), r, cells, k, width) == Ok::<
            (PendingView, Seq<CellView>),
            SpanFailure,
        >((g, cells)),
    decreases cells.len() - k,
{
    if k < cells.len() {
        let row = cells.take(k);
        assert(pending_at(g, r, row.len() as int) is None);
        assert(drain(g, r, row) == (g, row));
        let c = cells[k];
        assert(unit_cell(c) == c);
        assert(register(g, r, row.len() as int, c, 1) == g);
        assert(row.push(c) =~= cells.take(k + 1));
        assert(c.colspan == 1 && c.rowspan == 1);
        assert(place(g, row.push(c), r, c, 0, k == cells.len() - 1, width) == Ok::<
            (PendingView, Seq<CellView>),
            SpanFailure,
        >((g, row.push(c))));
        assert(place(g, row, r, c, c.colspan, k == cells.len() - 1, width) == Ok::<
            (PendingView, Seq<CellView>),
            SpanFailure,
        >((g, row.push(c))));
        lemma_place_cells_unchanged(g, r, cells, k + 1, width);
    } else {
        assert(cells.take(k) =~= cells);
    }
}

proof fn lemma_span_rows_unchanged(rows: Seq<RowView>, i: int, g: PendingView, width: int)
    requires
        forall|a: int, b: int| #![trigger pending_at(g, a, b)] pending_at(g, a, b) is None,
        all_unit(rows),
        forall|k: int| 0 <= k < rows.len() ==> #[trigger] rows[k].cells.len() <= width,
        0 <= i <= rows.len(),
    ensures
        span_rows(rows, i, g, rows.take(i), width) == Ok::<Seq<RowView>, SpanFailure>(rows),
    decreases rows.len() - i,
{
    if i < rows.len() {
        let cells = rows[i].cells;
        assert(unit_seq(cells)) by {
            assert forall|j: int| 0 <= j < cells.len() implies (#[trigger] cells[j]).rowspan == 1
                && cells[j].colspan == 1 by {
                assert(rows[i].cells[j].rowspan == 1);
            }
        }
        lemma_place_cells_unchanged(g, i, cells, 0, width);
        assert(cells.take(0) =~= Seq::<CellView>::empty());
        if cells.len() < width {
            assert(pending_at(g, i, cells.len() as int) is None);
        }
        assert(drain_upto(g, i, cells, width) == (g, cells));
        assert(rows.take(i).push(RowView { cells, attrs: rows[i].attrs }) =~= rows.take(i + 1));
        lemma_span_rows_unchanged(rows, i + 1, g, width);
    } else {
        assert(rows.take(i) =~= rows);
    }
}

/// Resolving the spans of a table whose cells all span one row and one
/// column gives the table back unchanged.
pub proof fn lemma_span_of_unit_table(t: TableView)
    requires
        all_unit(t.rows),
    ensures
        spanned(t) == Ok::<TableView, SpanFailure>(t),
{
    if t.rows.len() > 0 {
        let n = t.rows.len();
        let g = no_pending(n);
        assert forall|a: int, b: int| #![trigger pending_at(g, a, b)] pending_at(g, a, b) is None by {}
        let width = column_count(t.rows, n as int) as int;
        assert forall|k: int| 0 <= k < t.rows.len() implies #[trigger] t.rows[k].cells.len() <= width by {
            lemma_owed_unit(t.rows, k, k);
            lemma_column_count_bounds(t.rows, n as int, k);
        }
        assert(t.rows.take(0) =~= Seq::<RowView>::empty());
        lemma_span_rows_unchanged(t.rows, 0, g, width);
    }
}

proof fn lemma_register_keeps_row(g: PendingView, r: int, c: int, v: CellView, n: int, col: int)
    ensures
        pending_at(register(g, r, c, v, n), r, col) == pending_at(g, r, col),
    decreases n,
{
    if n > 1 {
        lemma_register_keeps_row(g, r, c, v, n - 1, col);
        let g1 = register(g, r, c, v, n - 1);
        let g2 = pending_put(g1, r + n - 1, c, v);
        if 0 <= r < g1.len() && 0 <= r + n - 1 < g1.len() && 0 <= c {
            assert(g2[r] == g1[r]);
        }
    }
}

/// A cell spanning columns, placed at a column of row `r`, meets a cell
/// that an earlier row spans down into the next column of row `r`: span
/// resolution fails there with an overlap, when the table is wide enough
/// for the cell to go on.
pub proof fn lemma_colspan_meets_rowspan(
    g: PendingView,
    row: Seq<CellView>,
    r: int,
    cell: CellView,
    remaining: int,
    is_last: bool,
    width: int,
)
    requires
        remaining >= 2,
        pending_at(g, r, row.len() as int) is None,
        pending_at(g, r, row.len() as int + 1) is Some,
        row.len() + 1 < width,
    ensures
        place(g, row, r, cell, remaining, is_last, width) == Err::<
            (PendingView, Seq<CellView>),
            SpanFailure,
        >(SpanFailure::OverlapSpan),
{
    let u = unit_cell(cell);
    let g2 = register(g, r, row.len() as int, u, cell.rowspan);
    lemma_register_keeps_row(g, r, row.len() as int, u, cell.rowspan, row.len() as int + 1);
    let row2 = row.push(u);
    assert(row2.len() == row.len() + 1);
    assert(pending_at(g2, r, row2.len() as int) is Some);
    assert(place(g2, row2, r, cell, remaining - 1, is_last, width) == Err::<
        (PendingView, Seq<CellView>),
        SpanFailure,
    >(SpanFailure::OverlapSpan));
}

/// A cell that is not the last of its row and reaches the table's width
/// while it is placed makes span resolution fail with an invalid span.
pub proof fn lemma_colspan_past_width(
    g: PendingView,
    row: Seq<CellView>,
    r: int,
    cell: CellView,
    remaining: int,
    width: int,
)
    requires
        remaining >= 1,
        pending_at(g, r, row.len() as int) is None,
        row.len() + 1 >= width,
    ensures
        place(g, row, r, cell, remaining, false, width) == Err::<
            (PendingView, Seq<CellView>),
            SpanFailure,
        >(SpanFailure::InvalidCellSpan),
{
}

} // verus!
