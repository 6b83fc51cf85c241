//! The error taxonomy of the converter.
//!
//! Every failure of a run is normalized into one of these variants, so the
//! caller has a single uniform representation to report. All of them are
//! terminal: nothing is retried.

use vstd::prelude::*;

verus! {

/// Why a conversion run failed.
#[derive(Debug, Clone, Copy, PartialEq, Eq, Structural)]
pub enum ConvertError {
    /// The input path does not exist, is not a readable workbook container,
    /// or is corrupt.
    Open,
    /// No worksheet with the required name exists in the workbook.
    SheetNotFound,
    /// A data row is missing one of the two required columns, or one of its
    /// two target cells cannot be read as text. `row_index` is the 0-based
    /// index of the row among the data rows (the rows after the header).
    RowDeserialization { row_index: usize },
    /// The output location is not writable.
    OutputOpen,
    /// Writing a record to the output failed.
    Write,
    /// The written output could not be reopened or resized.
    OutputTruncate,
}

impl ConvertError {
    /// The fixed description of each variant.
    pub open spec fn message_spec(self) -> Seq<char> {
        match self {
            ConvertError::Open => "cannot open the input workbook"@,
            ConvertError::SheetNotFound => "cannot find the required worksheet"@,
            ConvertError::RowDeserialization { .. } => "cannot read both required cells of a data row"@,
            ConvertError::OutputOpen => "cannot open the output file for writing"@,
            ConvertError::Write => "cannot write a record to the output file"@,
            ConvertError::OutputTruncate => "cannot finalize the output file"@,
        }
    }

    /// A human-readable description of the error.
    pub fn message(&self) -> (m: &'static str)
        ensures
            m@ == self.message_spec(),
    {
        match self {
            ConvertError::Open => "cannot open the input workbook",
            ConvertError::SheetNotFound => "cannot find the required worksheet",
            ConvertError::RowDeserialization { .. } => "cannot read both required cells of a data row",
            ConvertError::OutputOpen => "cannot open the output file for writing",
            ConvertError::Write => "cannot write a record to the output file",
            ConvertError::OutputTruncate => "cannot finalize the output file",
        }
    }
}

} // verus!
