//! Memory foundation of a bare-metal hypervisor kernel: physical RAM
//! discovery, a page-frame stack, large-page mappings into the kernel's
//! upper virtual window, per-core heap arenas with a first-fit free-list
//! allocator, and the general-purpose allocation adapter built on them.

pub mod error;
pub mod heap;
pub mod hv;
pub mod paging;
pub mod pgstack;
pub mod physmem;
