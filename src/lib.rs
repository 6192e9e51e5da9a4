//! The core of a small x86_64 kernel, specified and verified: the Multiboot2
//! memory-map parser, a bitmap allocator of physical frames, a four-level
//! page-table mapper with its frame-allocator interface, the interrupt
//! descriptor table the kernel installs, and the number formatting its
//! console uses.

pub mod frame_alloc;
pub mod idt;
pub mod mapper;
pub mod multiboot2;
pub mod numfmt;
pub mod paging;
pub mod physical;
