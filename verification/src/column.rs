use vstd::prelude::*;

verus! {

/// The declared type of a column: plain text, a 64-bit integer, or a
/// calendar date held as a day number (days since 1970-01-01 in the
/// proleptic Gregorian calendar).
#[derive(Clone, Copy, Debug, PartialEq, Eq, Structural)]
pub enum ColType {
    Text,
    Int,
    Date,
}

/// Smallest day number a `Cell::Date` may hold. Every date with a
/// four-digit year lies above it (0000-01-01 is day -719528).
pub const DAY_MIN: i64 = -730000;

/// Largest day number a `Cell::Date` may hold. Every date with a
/// four-digit year lies below it (9999-12-31 is day 2932896).
pub const DAY_MAX: i64 = 2940000;

/// One entry of a column. `Null` stands for a missing value or one whose
/// text failed to parse; it stays explicit, never coerced to a default.
#[derive(Debug)]
pub enum Cell {
    Null,
    Text(Vec<u8>),
    Int(i64),
    Date(i64),
}

/// The mathematical value of a cell.
pub enum CellValue {
    Null,
    Text(Seq<u8>),
    Int(int),
    Date(int),
}

impl View for Cell {
    type V = CellValue;

    open spec fn view(&self) -> CellValue {
        match self {
            Cell::Null => CellValue::Null,
            Cell::Text(v) => CellValue::Text(v@),
            Cell::Int(x) => CellValue::Int(*x as int),
            Cell::Date(d) => CellValue::Date(*d as int),
        }
    }
}

/// A cell fits under a declared type: it is null, or a value of that type;
/// a date moreover lies in the day-number range of four-digit years.
pub open spec fn cell_has_type(c: CellValue, ty: ColType) -> bool {
    match c {
        CellValue::Null => true,
        CellValue::Text(_) => ty == ColType::Text,
        CellValue::Int(_) => ty == ColType::Int,
        CellValue::Date(d) => ty == ColType::Date && DAY_MIN <= d <= DAY_MAX,
    }
}

/// The mathematical values of a sequence of cells.
pub open spec fn cells_view(cs: Seq<Cell>) -> Seq<CellValue> {
    cs.map_values(|c: Cell| c@)
}

/// A named, typed sequence of cells.
#[derive(Debug)]
pub struct Column {
    pub name: Vec<u8>,
    pub ty: ColType,
    pub cells: Vec<Cell>,
}

/// The mathematical value of a column.
pub struct ColumnValue {
    pub name: Seq<u8>,
    pub ty: ColType,
    pub cells: Seq<CellValue>,
}

impl View for Column {
    type V = ColumnValue;

    open spec fn view(&self) -> ColumnValue {
        ColumnValue { name: self.name@, ty: self.ty, cells: cells_view(self.cells@) }
    }
}

impl Column {
    /// Every cell fits under the column's declared type.
    pub open spec fn well_formed(self) -> bool {
        forall|i: int|
            0 <= i < self.cells@.len() ==> cell_has_type(#[trigger] self.cells@[i]@, self.ty)
    }
}

/// Whether two byte strings are equal.
pub fn bytes_eq(a: &[u8], b: &[u8]) -> (r: bool)
    ensures
        r == (a@ == b@),
{
    if a.len() != b.len() {
        return false;
    }
    let mut i: usize = 0;
    while i < a.len()
        invariant
            i <= a@.len(),
            a@.len() == b@.len(),
            forall|j: int| 0 <= j < i ==> a@[j] == b@[j],
        decreases a@.len() - i,
    {
        if a[i] != b[i] {
            return false;
        }
        i = i + 1;
    }
    proof {
        assert(a@ =~= b@);
    }
    true
}

/// A fresh copy of a byte string.
pub fn dup_bytes(v: &[u8]) -> (r: Vec<u8>)
    ensures
        r@ == v@,
{
    let mut r: Vec<u8> = Vec::new();
    let mut i: usize = 0;
    while i < v.len()
        invariant
            i <= v@.len(),
            r@ == v@.take(i as int),
        decreases v@.len() - i,
    {
        r.push(v[i]);
        proof {
            assert(r@ =~= v@.take(i + 1));
        }
        i = i + 1;
    }
    proof {
        assert(v@.take(v@.len() as int) =~= v@);
    }
    r
}

/// Whether two cells hold the same value.
pub fn cell_eq(a: &Cell, b: &Cell) -> (r: bool)
    ensures
        r == (a@ == b@),
{
    match (a, b) {
        (Cell::Null, Cell::Null) => true,
        (Cell::Text(x), Cell::Text(y)) => bytes_eq(x.as_slice(), y.as_slice()),
        (Cell::Int(x), Cell::Int(y)) => x == y,
        (Cell::Date(x), Cell::Date(y)) => x == y,
        _ => false,
    }
}

/// A fresh copy of a cell.
pub fn dup_cell(c: &Cell) -> (r: Cell)
    ensures
        r@ == c@,
{
    match c {
        Cell::Null => Cell::Null,
        Cell::Text(v) => Cell::Text(dup_bytes(v.as_slice())),
        Cell::Int(x) => Cell::Int(*x),
        Cell::Date(d) => Cell::Date(*d),
    }
}

} // verus!
