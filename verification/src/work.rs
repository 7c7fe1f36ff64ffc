//! The unit of work that a submission creates.

use vstd::prelude::*;

verus! {

/// An owned copy of a source region, ready to be written.
pub type Frame = Vec<u8>;

/// A request to copy `size` bytes that start at address `data` and to hand
/// them to the writer of destination `file`.
#[derive(Clone, Copy, Debug, PartialEq, Eq)]
pub struct Work {
    /// Address of the first byte of the source region.
    pub data: usize,
    /// Length of the source region in bytes.
    pub size: usize,
    /// Handle of the destination.
    pub file: i32,
}

} // verus!
