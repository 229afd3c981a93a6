use vstd::prelude::*;

use crate::column::{cell_has_type, dup_bytes, Cell, CellValue, ColType, Column, ColumnValue};
use crate::column::cells_view;
use crate::date::{parse_date, parse_date_spec};
use crate::error::PipeError;
use crate::table::{table_view, Table};

verus! {

/// What normalization makes of one cell: a text cell becomes the date its
/// text spells, or null when it spells none; anything else becomes null.
pub open spec fn normalized_cell(c: CellValue) -> CellValue {
    match c {
        CellValue::Text(s) => match parse_date_spec(s) {
            Some(d) => CellValue::Date(d),
            None => CellValue::Null,
        },
        _ => CellValue::Null,
    }
}

/// The table after the column carrying `name` is replaced by its
/// normalization: same name, declared type date, every cell normalized.
pub open spec fn normalize_view(tv: Seq<ColumnValue>, name: Seq<u8>) -> Seq<ColumnValue> {
    tv.map_values(
        |cv: ColumnValue|
            if cv.name == name {
                ColumnValue {
                    name: cv.name,
                    ty: ColType::Date,
                    cells: cv.cells.map_values(|c: CellValue| normalized_cell(c)),
                }
            } else {
                cv
            },
    )
}

/// Replaces the named text column by a date column: each cell that spells a
/// `DD.MM.YYYY` date becomes that date, every other cell becomes null.
pub fn normalize_dates(t: &mut Table, name: &[u8]) -> (r: Result<(), PipeError>)
    requires
        old(t).well_formed(),
    ensures
        final(t).well_formed(),
        final(t).cols@.len() == old(t).cols@.len(),
        final(t).spec_row_count() == old(t).spec_row_count(),
        match r {
            Ok(()) => old(t).has_column(name@) && table_view(*final(t)) == normalize_view(
                table_view(*old(t)),
                name@,
            ),
            Err(e) => e == PipeError::ColumnNotFound && !old(t).has_column(name@) && *final(t)
                == *old(t),
        },
{
    let idx = match t.column_index(name) {
        Some(i) => i,
        None => {
            return Err(PipeError::ColumnNotFound);
        },
    };
    let old_col = &t.cols[idx];
    let ghost ocells: Seq<Cell> = old_col.cells@;
    let mut cells: Vec<Cell> = Vec::new();
    let mut i: usize = 0;
    while i < old_col.cells.len()
        invariant
            i <= ocells.len(),
            old_col.cells@ == ocells,
            cells@.len() == i,
            forall|j: int|
                0 <= j < i ==> (#[trigger] cells@[j])@ == normalized_cell(ocells[j]@),
            forall|j: int|
                0 <= j < i ==> cell_has_type((#[trigger] cells@[j])@, ColType::Date),
        decreases ocells.len() - i,
    {
        let c = match &old_col.cells[i] {
            Cell::Text(v) => match parse_date(v.as_slice()) {
                Some(d) => Cell::Date(d),
                None => Cell::Null,
            },
            _ => Cell::Null,
        };
        assert(c@ == normalized_cell(ocells[i as int]@));
        cells.push(c);
        i = i + 1;
    }
    let new_col = Column { name: dup_bytes(old_col.name.as_slice()), ty: ColType::Date, cells };
    proof {
        assert forall|j: int| 0 <= j < new_col.cells@.len() implies cells_view(new_col.cells@)[j]
            == cells_view(ocells).map_values(|c: CellValue| normalized_cell(c))[j] by {
            assert(cells_view(new_col.cells@)[j] == new_col.cells@[j]@);
            assert(cells_view(ocells)[j] == ocells[j]@);
        }
        assert(cells_view(new_col.cells@) =~= cells_view(ocells).map_values(
            |c: CellValue| normalized_cell(c),
        ));
    }
    t.cols.set(idx, new_col);
    proof {
        let tv_old = table_view(*old(t));
        let target = normalize_view(tv_old, name@);
        assert forall|j: int| 0 <= j < t.cols@.len() implies table_view(*t)[j] == target[j] by {
            assert(table_view(*t)[j] == t.cols@[j]@);
            assert(tv_old[j] == old(t).cols@[j]@);
            if j != idx {
                // column names are unique, so only the column at `idx` matches
                assert(old(t).cols@[j].name@ != name@);
            }
        }
        assert(table_view(*t) =~= target);
    }
    Ok(())
}

} // verus!
