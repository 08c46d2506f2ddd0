pub mod addr;
pub mod frames;
pub mod paging;
pub mod allocator;

use vstd::prelude::*;

verus! {

/// The fixed size, in bytes, of one page of virtual memory and of one
/// frame of physical memory.
pub const PAGE_SIZE: u64 = 4096;

/// A page or frame is identified by the address of its first byte, which
/// is always a multiple of `PAGE_SIZE`.
pub open spec fn page_aligned(a: u64) -> bool {
    a & 0xfff == 0
}

} // verus!
