use vstd::prelude::*;

verus! {

/// Errors reported by layout registration and by serialization.
#[derive(Debug, PartialEq, Eq)]
pub enum XlsxError {
    /// A registration or write target lies outside the addressable grid.
    RowColumnLimitError,
    /// A layout was given an invalid parameter, such as a blank struct name.
    ParameterError(String),
    /// A text value exceeds the maximum length of a cell's text.
    MaxStringLengthExceeded,
    /// The structured value could not be represented; carries a message.
    SerdeError(String),
}

} // verus!
