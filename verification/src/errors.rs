//! The terminal errors a run can end with.
use vstd::prelude::*;

verus! {

/// Every failure the library reports. Filesystem errors stay with the
/// caller; these cover the decisions the library itself makes.
#[derive(Clone, Copy, Debug, PartialEq, Eq, Structural)]
pub enum Error {
    /// The table path is missing, not a regular file, or lacks the
    /// recognised table extension.
    InvalidTablePath,
    /// An archive could not be read as a ZIP container.
    InvalidArchive,
    /// An archive could not be written.
    ArchiveWrite,
    /// The requested command exists but has not been implemented.
    NotImplemented,
}

impl Error {
    /// A human-readable message, for the binary to print.
    pub fn message(&self) -> (r: &'static str)
        ensures
            r@ == self.spec_message(),
    {
        match self {
            Error::InvalidTablePath => "Table path not valid",
            Error::InvalidArchive => "Invalid or corrupt zip archive",
            Error::ArchiveWrite => "Could not write zip archive",
            Error::NotImplemented => "Not yet implemented",
        }
    }

    pub open spec fn spec_message(self) -> Seq<char> {
        match self {
            Error::InvalidTablePath => "Table path not valid"@,
            Error::InvalidArchive => "Invalid or corrupt zip archive"@,
            Error::ArchiveWrite => "Could not write zip archive"@,
            Error::NotImplemented => "Not yet implemented"@,
        }
    }
}

} // verus!
