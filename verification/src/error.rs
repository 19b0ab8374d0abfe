//! Error kinds reported by the memory subsystem.

use vstd::prelude::*;

verus! {

/// Why a memory operation failed.
#[derive(Clone, Copy, Debug, PartialEq, Eq, Structural)]
pub enum Cause {
    /// An allocation was requested for zero objects.
    HeapBadSize,
    /// The arena is exhausted, even after consolidating free blocks.
    HeapNoFreeMem,
    /// A free was requested for a block that is already free.
    HeapNotInUse,
    /// A free was requested for something that is not a live heap block.
    HeapBadBlock,
    /// The frame stack has reached its capacity limit.
    FrameStackExhausted,
    /// A frame was requested from an empty frame stack.
    FrameStackUnderflow,
    /// A virtual mapping request was rejected.
    MapFailed,
    /// Initialization of a subsystem could not complete.
    InitFailed,
}

} // verus!
