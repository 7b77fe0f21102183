//! Source locations.

use vstd::prelude::*;

verus! {

/// Identifies one source file of a project.
#[derive(Debug, Clone, Copy, PartialEq, Eq, Hash)]
pub struct FileId(pub u32);

} // verus!
