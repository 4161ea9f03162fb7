use vstd::prelude::*;
use crate::error::XlsxError;
use crate::format::Format;
use crate::header::HeaderView;
use crate::value::{CellData, CellValue, Scalar, Scope};

verus! {

/// The number of rows of a worksheet.
pub const ROW_MAX: u32 = 1_048_576;

/// The number of columns of a worksheet.
pub const COL_MAX: u16 = 16_384;

/// The largest number of characters a cell's text may hold.
pub const MAX_STRING_LEN: usize = 32_767;

/// A value written to a cell, with its style.
#[derive(Debug, PartialEq)]
pub struct Cell {
    pub row: u32,
    pub col: u16,
    pub value: CellValue,
    pub format: Option<Format>,
}

/// The content of a [`Cell`].
pub struct CellWrite {
    pub row: u32,
    pub col: u16,
    pub data: CellData,
    pub format: Option<Format>,
}

impl View for Cell {
    type V = CellWrite;

    open spec fn view(&self) -> CellWrite {
        CellWrite { row: self.row, col: self.col, data: self.value@, format: self.format }
    }
}

/// Whether the write `w` is to the cell `(row, col)`.
pub open spec fn writes_to(w: CellWrite, row: u32, col: u16) -> bool {
    w.row == row && w.col == col
}

/// Whether `(row, col)` lies on the grid.
pub open spec fn in_grid(row: int, col: int) -> bool {
    0 <= row < ROW_MAX && 0 <= col < COL_MAX
}

/// The error that writing `data` to `(row, col)` meets, if any: the cell
/// must lie on the grid, and a text must fit in a cell.
pub open spec fn write_error(row: int, col: int, data: CellData) -> Option<XlsxError> {
    if !in_grid(row, col) {
        Some(XlsxError::RowColumnLimitError)
    } else if data matches CellData::Text(t) && t.len() > MAX_STRING_LEN {
        Some(XlsxError::MaxStringLengthExceeded)
    } else {
        None
    }
}

/// What serialization reads and changes on a worksheet: the registered
/// layouts, keyed by struct name and field name, and the cells written so
/// far, in the order they were written (a later write to a cell replaces
/// an earlier one).
pub struct SheetModel {
    pub layout: Map<Scope, HeaderView>,
    pub cells: Seq<CellWrite>,
}

/// A field layout whose cursor has moved one row down.
pub open spec fn advanced(h: HeaderView) -> HeaderView {
    HeaderView { row: (h.row + 1) as u32, ..h }
}

/// The write of `data` at the cursor of the field layout `h`, in its cell style.
pub open spec fn write_for(h: HeaderView, data: CellData) -> CellWrite {
    CellWrite { row: h.row, col: h.col, data, format: h.cell_format }
}

/// One scalar met by a traversal: a registered field writes it to its
/// cursor's cell with its cell style and moves its cursor one row down; an
/// unregistered field drops it.
pub open spec fn step(m: SheetModel, s: Scalar) -> (SheetModel, Result<(), XlsxError>) {
    if !m.layout.contains_key(s.0) {
        (m, Ok(()))
    } else {
        let h = m.layout[s.0];
        match write_error(h.row as int, h.col as int, s.1) {
            Some(e) => (m, Err(e)),
            None => (
                SheetModel {
                    layout: m.layout.insert(s.0, advanced(h)),
                    cells: m.cells.push(write_for(h, s.1)),
                },
                Ok(()),
            ),
        }
    }
}

/// The scalars `ss` met in order; the first error stops the run.
pub open spec fn run(m: SheetModel, ss: Seq<Scalar>) -> (SheetModel, Result<(), XlsxError>)
    decreases ss.len(),
{
    if ss.len() == 0 {
        (m, Ok(()))
    } else {
        let r = run(m, ss.drop_last());
        if r.1 is Err {
            r
        } else {
            step(r.0, ss.last())
        }
    }
}

/// Running two lists of scalars one after the other is running the first,
/// then, if it succeeded, the second.
pub proof fn lemma_run_concat(m: SheetModel, a: Seq<Scalar>, b: Seq<Scalar>)
    ensures
        run(m, a + b) == (if run(m, a).1 is Err {
            run(m, a)
        } else {
            run(run(m, a).0, b)
        }),
    decreases b.len(),
{
    if b.len() == 0 {
        assert(a + b =~= a);
    } else {
        lemma_run_concat(m, a, b.drop_last());
        assert((a + b).drop_last() =~= a + b.drop_last());
        assert((a + b).last() == b.last());
    }
}

/// Running one scalar is taking one step.
pub proof fn lemma_run_one(m: SheetModel, s: Scalar)
    ensures
        run(m, seq![s]) == step(m, s),
{
    assert(seq![s].drop_last() =~= Seq::<Scalar>::empty());
    assert(run(m, Seq::<Scalar>::empty()) == (m, Ok::<(), XlsxError>(())));
}

/// A run that fails on a prefix of the scalars stops there.
pub proof fn lemma_run_stops(m: SheetModel, a: Seq<Scalar>, full: Seq<Scalar>)
    requires
        a.is_prefix_of(full),
        run(m, a).1 is Err,
    ensures
        run(m, full) == run(m, a),
{
    let b = full.subrange(a.len() as int, full.len() as int);
    assert(a + b =~= full);
    lemma_run_concat(m, a, b);
}

/// Whether one of the layouts `hs` asks for hidden headers.
pub open spec fn headers_hidden(hs: Seq<HeaderView>) -> bool {
    exists|i: int| 0 <= i < hs.len() && #[trigger] hs[i].hide_headers
}

/// The number of layouts among the first `n` of `hs` that are not skipped:
/// the column offset of the next one that is not.
pub open spec fn columns_before(hs: Seq<HeaderView>, n: int) -> nat
    decreases n,
{
    if n <= 0 || n > hs.len() {
        0
    } else if hs[n - 1].skip {
        columns_before(hs, n - 1)
    } else {
        columns_before(hs, n - 1) + 1
    }
}

/// The row where the data of a layout registered at `row` starts.
pub open spec fn first_data_row(hs: Seq<HeaderView>, row: u32) -> int {
    if headers_hidden(hs) {
        row as int
    } else {
        row + 1
    }
}

/// Registration of the first `n` layouts `hs` for struct `name` at
/// `(row, col)`: each one that is not skipped takes the next column, has
/// its header written at `row` unless headers are hidden, and is keyed by
/// `(name, field name)` with its cursor on the first data row.
pub open spec fn register(
    m: SheetModel,
    name: Seq<char>,
    hs: Seq<HeaderView>,
    row: u32,
    col: u16,
    n: int,
) -> (SheetModel, Result<(), XlsxError>)
    decreases n,
{
    if n <= 0 || n > hs.len() {
        (m, Ok(()))
    } else {
        let r = register(m, name, hs, row, col, n - 1);
        let h = hs[n - 1];
        let c = col + columns_before(hs, n - 1);
        if r.1 is Err || h.skip {
            r
        } else if c >= COL_MAX {
            (r.0, Err(XlsxError::RowColumnLimitError))
        } else if headers_hidden(hs) {
            (
                SheetModel {
                    layout: r.0.layout.insert(
                        (name, h.field_name),
                        HeaderView { row, col: c as u16, ..h },
                    ),
                    cells: r.0.cells,
                },
                Ok(()),
            )
        } else {
            match write_error(row as int, c, CellData::Text(h.header_name)) {
                Some(e) => (r.0, Err(e)),
                None => (
                    SheetModel {
                        layout: r.0.layout.insert(
                            (name, h.field_name),
                            HeaderView { row: (row + 1) as u32, col: c as u16, ..h },
                        ),
                        cells: r.0.cells.push(
                            CellWrite {
                                row,
                                col: c as u16,
                                data: CellData::Text(h.header_name),
                                format: h.header_format,
                            },
                        ),
                    },
                    Ok(()),
                ),
            }
        }
    }
}

/// A registration that fails on one layout stops there.
pub proof fn lemma_register_stops(
    m: SheetModel,
    name: Seq<char>,
    hs: Seq<HeaderView>,
    row: u32,
    col: u16,
    j: int,
    n: int,
)
    requires
        0 <= j <= n <= hs.len(),
        register(m, name, hs, row, col, j).1 is Err,
    ensures
        register(m, name, hs, row, col, n) == register(m, name, hs, row, col, j),
    decreases n - j,
{
    if j < n {
        lemma_register_stops(m, name, hs, row, col, j, n - 1);
    }
}

} // verus!
