//! A fixed-granularity byte allocator for a linear, pre-mapped address range.
//!
//! The allocator carves a contiguous memory region into equal-size units and
//! tracks per-unit occupancy with a bitmap.  [`Bitmap`] offers bit-level query
//! and update together with a first-fit contiguous-run search;
//! [`SimpleByteAllocator`] owns a region split into a bitmap prefix and a data
//! suffix, translating byte requests into unit runs and unit indices back into
//! addresses.

use vstd::prelude::*;

pub mod arith;
pub mod bitmap;
pub mod bitops;
pub mod byte_alloc;
pub mod filter;
pub mod occupancy;

pub use bitmap::Bitmap;
pub use byte_alloc::SimpleByteAllocator;
pub use filter::NetFilter;

verus! {

/// Failure modes of the allocator.
#[derive(Clone, Copy, Debug, PartialEq, Eq, Structural)]
pub enum AllocError {
    /// Malformed construction or a non-contiguous growth request.
    InvalidParam,
    /// No sufficiently large free run exists.
    NoMemory,
    /// A release was requested over a range that is not fully occupied.
    MemoryOverlap,
}

/// Result type of the fallible allocator operations.
pub type AllocResult<T = ()> = Result<T, AllocError>;

} // verus!
