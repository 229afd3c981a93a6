use vstd::prelude::*;

use crate::column::{bytes_eq, Column, ColumnValue};

verus! {

/// An ordered collection of named, typed columns of equal length.
#[derive(Debug)]
pub struct Table {
    pub cols: Vec<Column>,
}

/// The mathematical values of a table's columns.
pub open spec fn table_view(t: Table) -> Seq<ColumnValue> {
    t.cols@.map_values(|c: Column| c@)
}

/// The position of the column value carrying `name`; meaningful where
/// exactly one column does, as a well-formed table guarantees.
pub open spec fn view_col_index(tv: Seq<ColumnValue>, name: Seq<u8>) -> int {
    choose|i: int| 0 <= i < tv.len() && tv[i].name == name
}

/// The column value carrying `name`.
pub open spec fn view_col(tv: Seq<ColumnValue>, name: Seq<u8>) -> ColumnValue {
    tv[view_col_index(tv, name)]
}

impl Table {
    /// The number of rows: the common length of all columns (0 for a table
    /// without columns).
    pub open spec fn spec_row_count(self) -> int {
        if self.cols@.len() == 0 {
            0
        } else {
            self.cols@[0].cells@.len() as int
        }
    }

    /// Every column is well formed and as long as the table, and no two
    /// columns share a name.
    pub open spec fn well_formed(self) -> bool {
        &&& forall|i: int|
            0 <= i < self.cols@.len() ==> (#[trigger] self.cols@[i]).well_formed()
                && self.cols@[i].cells@.len() == self.spec_row_count()
        &&& forall|i: int, j: int|
            0 <= i < j < self.cols@.len() ==> self.cols@[i].name@ != self.cols@[j].name@
    }

    /// Whether some column carries this name.
    pub open spec fn has_column(self, name: Seq<u8>) -> bool {
        exists|i: int| 0 <= i < self.cols@.len() && (#[trigger] self.cols@[i]).name@ == name
    }

    pub fn row_count(&self) -> (r: usize)
        ensures
            r == self.spec_row_count(),
    {
        if self.cols.len() == 0 {
            0
        } else {
            self.cols[0].cells.len()
        }
    }

    pub fn column_count(&self) -> (r: usize)
        ensures
            r == self.cols@.len(),
    {
        self.cols.len()
    }

    /// The position of the column carrying `name`, if any.
    pub fn column_index(&self, name: &[u8]) -> (r: Option<usize>)
        ensures
            match r {
                Some(i) => 0 <= i < self.cols@.len() && self.cols@[i as int].name@ == name@,
                None => !self.has_column(name@),
            },
    {
        let mut i: usize = 0;
        while i < self.cols.len()
            invariant
                i <= self.cols@.len(),
                forall|j: int| 0 <= j < i ==> (#[trigger] self.cols@[j]).name@ != name@,
            decreases self.cols@.len() - i,
        {
            if bytes_eq(self.cols[i].name.as_slice(), name) {
                return Some(i);
            }
            i = i + 1;
        }
        None
    }
}

} // verus!
