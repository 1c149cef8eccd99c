use vstd::prelude::*;

verus! {

/// The error kinds the engine reports.
///
/// `OpenError` and `IoError` describe failures of the file itself (creating,
/// opening, seeking, reading or writing); they are produced by the code that
/// owns the file handle, outside this library. The remaining kinds are data
/// errors the engine itself detects: a file whose length is not an exact
/// multiple of the record size (`CorruptRecord`), a row id at or past the
/// current row count (`OutOfRange`), and a field name the schema does not
/// know (`UnknownField`).
#[derive(Clone, Copy, Debug, PartialEq, Eq, Structural)]
pub enum DbError {
    OpenError,
    IoError,
    CorruptRecord,
    OutOfRange,
    UnknownField,
}

} // verus!
