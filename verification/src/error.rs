//! The failures that the library reports.

use vstd::prelude::*;

verus! {

/// Why an operation was refused. None of these is retried inside the library:
/// each is handed to the caller at once.
#[derive(Clone, Copy, Debug, PartialEq, Eq, Structural)]
pub enum Error {
    /// The bytes are not a file of this format: a magic marker is missing, the
    /// footer is truncated or malformed, or it disagrees with the data.
    Format,
    /// An operation came out of turn: a write after a close, a second row
    /// group while one is open, a close with columns still missing.
    State,
    /// The column definitions do not make a schema.
    Schema,
    /// What was written does not fit the declared type of the column.
    Type,
    /// A row group or column index is out of bounds.
    Range,
}

} // verus!
