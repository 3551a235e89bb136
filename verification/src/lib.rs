//! Verified core of a grading-workflow helper: it unpacks nested submission
//! archives, tallies point deductions written as `// Tutor:` comments, joins
//! the tallies into a spreadsheet-style table, and bundles per-student
//! feedback archives.
//!
//! Points are modelled as exact integers: tenths of a point for scanned
//! deductions, hundredths of a point for table ratings. The filesystem is
//! modelled as a list of entries with component paths, so every directory
//! transformation is a verified function from tree to tree; the surrounding
//! binary performs the actual reads and writes.
use vstd::prelude::*;

pub mod archive;
pub mod counter;
mod errors;
pub mod extract;
pub mod filler;
pub mod fstree;
pub mod pack;
pub mod record;
pub mod scan;
pub mod table;
pub mod text;

pub use archive::unzip;
pub use counter::count;
pub use errors::Error;
pub use filler::fill_table;
pub use pack::zipit;

verus! {

/// Placeholder for a statistics command that has never been implemented:
/// it fails unconditionally.
pub fn stats() -> (r: Result<(), Error>)
    ensures
        r matches Err(e) && e == Error::NotImplemented,
{
    Err(Error::NotImplemented)
}

} // verus!
