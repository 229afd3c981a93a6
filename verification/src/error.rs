use vstd::prelude::*;

verus! {

/// A structural failure of the pipeline. Cell-level parse failures are not
/// errors: they degrade to `Cell::Null` in place. File I/O failures are the
/// caller's concern; the library works on text it is handed.
#[derive(Clone, Copy, Debug, PartialEq, Eq, Structural)]
pub enum PipeError {
    /// A column named by the schema does not exist in the header.
    SchemaColumnMissing,
    /// Two header fields carry the same name, so no well-formed table exists.
    DuplicateColumn,
    /// A column named by a normalization, derivation or aggregation is absent.
    ColumnNotFound,
    /// The name chosen for a derived column is already taken.
    ColumnExists,
}

} // verus!
