//! Physical- and virtual-memory management core of a small 64-bit kernel:
//! frame allocators, the four-level page table and the boot-time sequence
//! that brings both up from the boot loader's memory map.

pub mod addr;
pub mod frame;
pub mod frame_alloc;
pub mod bump;
pub mod bitmap;
pub mod paging;
pub mod multiboot2;
pub mod arch;
