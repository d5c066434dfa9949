//! Memory-management core of a small kernel: a first-fit free-list byte
//! allocator with block splitting and coalescing (plus a hot-size pool fast
//! path), an early double-ended bootstrap allocator serving bytes from the
//! low end and pages from the high end of one region, and a small
//! open-addressing hash map used by the kernel's library layer.
//!
//! The allocators manage an address range as plain numbers: a block
//! descriptor records where a free block's header would sit and how many
//! usable bytes follow it, exactly as the intrusive in-memory list would.

pub mod byte_alloc;
pub mod early;
pub mod freelist;
pub mod hashmap;

pub use byte_alloc::LabByteAllocator;
pub use byte_alloc::PoolEntry;
pub use early::EarlyAllocator;
pub use hashmap::DefaultHasher;
pub use hashmap::HashMap;

use vstd::prelude::*;

verus! {

/// Failure modes of the allocators.
#[derive(Clone, Copy, Debug, PartialEq, Eq, Structural)]
pub enum AllocError {
    /// No sufficiently large free block, or the double-ended allocator's
    /// cursors would cross.
    NoMemory,
    /// A page-allocation alignment that is not a multiple of the page size,
    /// or not a power of two when normalized to page units.
    InvalidParam,
}

} // verus!
