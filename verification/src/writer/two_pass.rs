//! Writing in two passes: the first measures every level, the second writes
//! each block at the offset that the measures give.

use vstd::prelude::*;

pub mod markup;
pub mod sizes;
pub mod write;

verus! {

/// The measures of one level: the size of its header, and of the whole level
/// with its header.
#[derive(Clone, PartialEq, Debug)]
pub struct LevelCoords<O> {
    pub index: usize,
    pub header_size: O,
    pub total_size: O,
}

} // verus!
