//! Conversion of a single spreadsheet worksheet into a two-column delimited
//! text file.
//!
//! The library extracts the columns named `ExperienceProductID` and
//! `OptionID` from a worksheet (given as rows of optional cell texts), trims
//! each value, and renders a delimited output whose first line is the header
//! and whose final byte is never a line terminator.

pub mod convert;
pub mod error;
pub mod laws;
pub mod trim;
pub mod whitespace;
