//! Physical- and virtual-memory management core of a small x86-64 kernel,
//! modelled and verified with Verus.
//!
//! The crate covers the frame allocator and the four-level page-table
//! subsystem: entry encoding, table walks, the active/inactive root-table
//! lifecycle built on the recursive self-mapping trick, and the kernel
//! re-mapping procedure.  Hardware itself (the root-pointer register, the
//! TLB, raw frame memory) is represented by an explicit machine model, so
//! every table walk and every mutation is ordinary verified code.
//! Addresses, frame numbers and page numbers are `u64`, the width the
//! hardware page-walk format defines.

use vstd::prelude::*;

pub mod alpha_frame_allocator;
pub mod boot;
pub mod entry;
pub mod memory;
pub mod paging;
pub mod pt_mapper;
pub mod table;
pub mod temp_page;
pub mod vga_interface;

verus! {

/// Size in bytes of one page or frame.
pub const PAGE_SIZE: u64 = 4096;

/// Entries per table: one frame holds 512 eight-byte entries.
pub const ENTRY_COUNT: usize = 512;

} // verus!
