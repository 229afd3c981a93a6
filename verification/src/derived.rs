use vstd::prelude::*;

use crate::column::{cell_has_type, dup_bytes, Cell, CellValue, ColType, Column, ColumnValue};
use crate::error::PipeError;
use crate::table::{table_view, view_col, Table};

verus! {

/// The derived value for one row: the day difference of two date cells;
/// null as soon as either operand is not a date (null propagates, no
/// default is invented).
pub open spec fn day_diff_cell(a: CellValue, b: CellValue) -> CellValue {
    match (a, b) {
        (CellValue::Date(x), CellValue::Date(y)) => CellValue::Int(x - y),
        _ => CellValue::Null,
    }
}

/// Null propagates: as soon as either operand of the day difference is
/// null (or anything but a date), the derived value for that row is null,
/// never a default.
pub proof fn lemma_day_diff_null_propagates(a: CellValue, b: CellValue)
    ensures
        (a is Date && b is Date) || day_diff_cell(a, b) is Null,
{
}

/// The cells of the derived column: the day difference of the columns
/// carrying `minuend` and `subtrahend`, row by row.
pub open spec fn day_diff_cells(
    tv: Seq<ColumnValue>,
    minuend: Seq<u8>,
    subtrahend: Seq<u8>,
    rows: nat,
) -> Seq<CellValue> {
    Seq::new(
        rows,
        |i: int| day_diff_cell(view_col(tv, minuend).cells[i], view_col(tv, subtrahend).cells[i]),
    )
}

/// Appends a derived integer column holding, for every row, the day count
/// from the `subtrahend` date to the `minuend` date; null wherever either
/// operand is null (or not a date).
pub fn add_day_diff(
    t: &mut Table,
    new_name: &[u8],
    minuend: &[u8],
    subtrahend: &[u8],
) -> (r: Result<(), PipeError>)
    requires
        old(t).well_formed(),
    ensures
        final(t).well_formed(),
        final(t).spec_row_count() == old(t).spec_row_count(),
        match r {
            Ok(()) => !old(t).has_column(new_name@) && old(t).has_column(minuend@) && old(
                t,
            ).has_column(subtrahend@) && table_view(*final(t)) == table_view(*old(t)).push(
                ColumnValue {
                    name: new_name@,
                    ty: ColType::Int,
                    cells: day_diff_cells(
                        table_view(*old(t)),
                        minuend@,
                        subtrahend@,
                        old(t).spec_row_count() as nat,
                    ),
                },
            ),
            Err(PipeError::ColumnExists) => old(t).has_column(new_name@) && *final(t) == *old(t),
            Err(e) => e == PipeError::ColumnNotFound && !old(t).has_column(new_name@) && (!old(
                t,
            ).has_column(minuend@) || !old(t).has_column(subtrahend@)) && *final(t) == *old(t),
        },
{
    if let Some(_) = t.column_index(new_name) {
        return Err(PipeError::ColumnExists);
    }
    let im = match t.column_index(minuend) {
        Some(i) => i,
        None => {
            return Err(PipeError::ColumnNotFound);
        },
    };
    let is = match t.column_index(subtrahend) {
        Some(i) => i,
        None => {
            return Err(PipeError::ColumnNotFound);
        },
    };
    proof {
        let tv = table_view(*t);
        // the unique columns named by the operands are the ones found
        assert(tv[im as int] == t.cols@[im as int]@);
        assert(tv[is as int] == t.cols@[is as int]@);
        let km = crate::table::view_col_index(tv, minuend@);
        assert(0 <= km < tv.len() && tv[km].name == minuend@);
        assert(view_col(tv, minuend@) == tv[im as int]);
        let ks = crate::table::view_col_index(tv, subtrahend@);
        assert(0 <= ks < tv.len() && tv[ks].name == subtrahend@);
        assert(view_col(tv, subtrahend@) == tv[is as int]);
    }
    let rows = t.row_count();
    let mut cells: Vec<Cell> = Vec::new();
    let mut i: usize = 0;
    while i < rows
        invariant
            t.well_formed(),
            i <= rows,
            rows == t.spec_row_count(),
            0 <= im < t.cols@.len(),
            0 <= is < t.cols@.len(),
            cells@.len() == i,
            forall|j: int|
                0 <= j < i ==> (#[trigger] cells@[j])@ == day_diff_cell(
                    t.cols@[im as int].cells@[j]@,
                    t.cols@[is as int].cells@[j]@,
                ),
            forall|j: int|
                0 <= j < i ==> cell_has_type((#[trigger] cells@[j])@, ColType::Int),
        decreases rows - i,
    {
        proof {
            assert(cell_has_type(t.cols@[im as int].cells@[i as int]@, t.cols@[im as int].ty));
            assert(cell_has_type(t.cols@[is as int].cells@[i as int]@, t.cols@[is as int].ty));
        }
        let a = &t.cols[im].cells[i];
        let c = match (a, &t.cols[is].cells[i]) {
            (Cell::Date(x), Cell::Date(y)) => Cell::Int(*x - *y),
            _ => Cell::Null,
        };
        cells.push(c);
        i = i + 1;
    }
    let new_col = Column { name: dup_bytes(new_name), ty: ColType::Int, cells };
    proof {
        let tv = table_view(*t);
        let spec_cells = day_diff_cells(tv, minuend@, subtrahend@, t.spec_row_count() as nat);
        assert forall|j: int| 0 <= j < rows implies crate::column::cells_view(new_col.cells@)[j]
            == spec_cells[j] by {
            assert(crate::column::cells_view(new_col.cells@)[j] == new_col.cells@[j]@);
            assert(view_col(tv, minuend@).cells[j] == t.cols@[im as int].cells@[j]@);
            assert(view_col(tv, subtrahend@).cells[j] == t.cols@[is as int].cells@[j]@);
        }
        assert(crate::column::cells_view(new_col.cells@) =~= spec_cells);
    }
    t.cols.push(new_col);
    proof {
        let tv = table_view(*old(t));
        let target = tv.push(
            ColumnValue {
                name: new_name@,
                ty: ColType::Int,
                cells: day_diff_cells(tv, minuend@, subtrahend@, old(t).spec_row_count() as nat),
            },
        );
        assert forall|j: int| 0 <= j < t.cols@.len() implies table_view(*t)[j] == target[j] by {
            assert(table_view(*t)[j] == t.cols@[j]@);
            if j < tv.len() {
                assert(tv[j] == old(t).cols@[j]@);
            }
        }
        assert(table_view(*t) =~= target);
    }
    Ok(())
}

} // verus!
