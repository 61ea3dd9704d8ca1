//! Errors of a load. Every one of them ends the load: no archive is handed
//! out once one has occurred.

use vstd::prelude::*;

verus! {

/// Why an archive could not be decoded.
#[derive(Debug, PartialEq, Eq)]
pub enum DrsError {
    /// The input ended before a read was complete.
    Io,
    /// The copyright, version or type text is not the one the variant
    /// prescribes. Carries the name of the file that was being read.
    InvalidDrs(String),
    /// A table header names a file type that is not known. Carries the raw
    /// tag.
    UnknownFileType(u32),
}

/// The mathematical value of a [`DrsError`]: the file name as a sequence of
/// characters.
pub enum DrsErrorView {
    Io,
    InvalidDrs(Seq<char>),
    UnknownFileType(u32),
}

impl View for DrsError {
    type V = DrsErrorView;

    open spec fn view(&self) -> DrsErrorView {
        match *self {
            DrsError::Io => DrsErrorView::Io,
            DrsError::InvalidDrs(name) => DrsErrorView::InvalidDrs(name@),
            DrsError::UnknownFileType(tag) => DrsErrorView::UnknownFileType(tag),
        }
    }
}

} // verus!
