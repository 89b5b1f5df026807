//! Physical-memory and virtual-address-translation core of a small kernel:
//! frame allocation over a boot-supplied memory map, four-level page tables
//! with a recursive self-mapping, and a text-mode screen buffer model.

pub mod mem;
pub mod paging;
pub mod table;
pub mod vga;
