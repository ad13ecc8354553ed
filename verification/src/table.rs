//! Table definitions.

use std::ops::Range;
use vstd::prelude::*;

verus! {

/// Column definition: a name, an opaque type tag and the width in bytes.
#[derive(Debug)]
pub struct ColumnDef {
    pub name: String,
    pub column_type: u8,
    pub size: u16,
}

/// What a column definition is, as plain values.
pub struct ColumnSpec {
    pub name: Seq<char>,
    pub column_type: u8,
    pub size: u16,
}

impl View for ColumnDef {
    type V = ColumnSpec;

    open spec fn view(&self) -> ColumnSpec {
        ColumnSpec { name: self.name@, column_type: self.column_type, size: self.size }
    }
}

/// The kinds of failure that the engine reports.
#[derive(Debug, Clone, Copy, PartialEq, Eq, Structural)]
pub enum CreateTableError {
    /// A name of bad length, a row of the wrong length, a negative page
    /// number or a byte range outside the row.
    InvalidArgument,
    TableExists,
    TableNotFound,
    HeaderTableFull,
    TooManyColumns,
    ColumnNameTooLong,
    ColumnTooBig,
    StorageFull,
    /// A directory record breaks the format's invariants.
    CorruptData,
    /// A read past the end of the file, or a file too large for the machine.
    Io,
}

/// A byte range of a row and the bytes expected (or to be written) there.
#[derive(Debug)]
pub struct Condition {
    pub range: Range<usize>,
    pub data: Vec<u8>,
}

/// What a condition is, as plain values.
pub struct ConditionSpec {
    pub start: int,
    pub end: int,
    pub data: Seq<u8>,
}

impl View for Condition {
    type V = ConditionSpec;

    open spec fn view(&self) -> ConditionSpec {
        ConditionSpec { start: self.range.start as int, end: self.range.end as int, data: self.data@ }
    }
}

} // verus!
