//! Memory-management core of a minimal x86-64 kernel, modelled and verified.
//!
//! The crate models physical memory that holds page tables as explicit data
//! (`table::TableStore`), so that the four-level walk, the mapper, the kernel
//! remapper, the stack carver and the allocators can be verified as ordinary
//! functions over that model.  Hardware access (control registers, TLB
//! flushes, the VGA framebuffer itself) stays outside the library.

pub mod area_allocator;
pub mod entry;
pub mod heap_allocator;
pub mod mapper;
pub mod memory;
pub mod paging;
pub mod stack_allocator;
pub mod table;
pub mod temporary;
pub mod vga;

use vstd::prelude::*;

verus! {

/// First virtual address backed by the kernel heap (64 GiB).
pub const HEAP_START: u64 = 0x10_0000_0000;

/// Size of the kernel heap in bytes.
pub const HEAP_SIZE: u64 = 100 * 1024;

} // verus!
