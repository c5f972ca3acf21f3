//! Source files and positions within them.

use vstd::prelude::*;

verus! {

/// Identifies one source file of the file library.
pub type FileID = usize;

/// A byte range `start..end` within a source file.
#[derive(Clone, Copy, Debug, PartialEq, Eq, Structural)]
pub struct FileLocation {
    pub start: usize,
    pub end: usize,
}

} // verus!
