//! The boot loader's information, reduced to the plain values the
//! memory core reads: usable-memory regions, kernel-section descriptors
//! and the bounds of the information block itself.

use vstd::prelude::*;
use crate::PAGE_SIZE;
use crate::entry::{PRESENT, WRITABLE};
use crate::memory::ADDR_SPACE;
use crate::paging::MAGIC_PAGE_NUMBER;

verus! {

/// Identity mappings stay below this address, which keeps their page
/// numbers clear of the root table's recursive slot.
pub const IDENTITY_LIMIT: u64 = 0xFF80_0000_0000;

/// Frame number of the diagnostic output device's memory-mapped buffer.
pub const VGA_BUFFER_FRAME: u64 = 0xB8;

/// One kernel section as the loader reports it: where it sits, how
/// large it is, its protection attributes, and whether it occupies
/// memory at all.
#[derive(Debug, Clone, Copy, PartialEq, Eq, Structural)]
pub struct KernelSection {
    pub addr: u64,
    pub size: u64,
    pub writable: bool,
    pub executable: bool,
    pub allocated: bool,
}

impl KernelSection {
    /// One past the section's last byte.
    pub open spec fn end(self) -> int {
        self.addr + self.size
    }

    /// First frame the section occupies.
    pub open spec fn start_frame(self) -> int {
        self.addr as int / (PAGE_SIZE as int)
    }

    /// One past the last full frame boundary inside the section.
    pub open spec fn end_frame(self) -> int {
        self.end() / (PAGE_SIZE as int)
    }

    /// Does the identity mapping of this section span frame `n`?
    pub open spec fn covers_frame(self, n: int) -> bool {
        self.allocated && self.start_frame() <= n < self.end_frame()
    }

    /// An allocated section starts on a page boundary (anything else is
    /// a fatal configuration error) and lies in the identity range.
    pub open spec fn wf(self) -> bool {
        self.allocated ==> self.addr % PAGE_SIZE == 0 && self.end() <= IDENTITY_LIMIT
    }
}

/// The boot information block: the kernel's section list plus the
/// block's own location, `total_size` bytes from `start_address`.
pub struct BootData {
    pub sections: Vec<KernelSection>,
    pub start_address: u64,
    pub total_size: u64,
}

impl BootData {
    /// First frame of the information block.
    pub open spec fn boot_start_frame(self) -> int {
        self.start_address as int / (PAGE_SIZE as int)
    }

    /// One past the block's last full frame boundary.
    pub open spec fn boot_end_frame(self) -> int {
        (self.start_address + self.total_size) / (PAGE_SIZE as int)
    }

    /// Does the identity mapping of the block span frame `n`?
    pub open spec fn boot_covers(self, n: int) -> bool {
        self.boot_start_frame() <= n < self.boot_end_frame()
    }

    /// Does any part of the re-mapping procedure identity-map frame `n`?
    pub open spec fn covered(self, n: int) -> bool {
        ||| exists|j: int|
            0 <= j < self.sections@.len() && (#[trigger] self.sections@[j]).covers_frame(n)
        ||| n == VGA_BUFFER_FRAME
        ||| self.boot_covers(n)
    }

    /// The leaf bits the re-mapping procedure gives frame `n`: kernel
    /// sections get flags derived from their attributes, the diagnostic
    /// buffer is writable, the information block is mapped read-only.
    pub open spec fn covered_flags(self, n: int) -> u64 {
        if self.boot_covers(n) {
            PRESENT
        } else if n == VGA_BUFFER_FRAME {
            WRITABLE | PRESENT
        } else {
            let j = choose|j: int|
                0 <= j < self.sections@.len() && (#[trigger] self.sections@[j]).covers_frame(n);
            section_flag_bits(self.sections@[j]) | PRESENT
        }
    }

    /// Every section is sound and the three identity-mapped areas are
    /// pairwise disjoint, so each covered frame is mapped exactly once;
    /// none of them touches the temporary page's reserved spot.
    pub open spec fn wf(self) -> bool {
        &&& forall|j: int| 0 <= j < self.sections@.len() ==> (#[trigger] self.sections@[j]).wf()
        &&& self.start_address + self.total_size <= IDENTITY_LIMIT
        &&& forall|i: int, j: int, n: int|
            0 <= i < j < self.sections@.len() ==> !(#[trigger] self.sections@[i].covers_frame(n)
                && #[trigger] self.sections@[j].covers_frame(n))
        &&& forall|j: int|
            0 <= j < self.sections@.len() ==> !(#[trigger] self.sections@[j]).covers_frame(
                VGA_BUFFER_FRAME as int)
        &&& forall|j: int, n: int|
            0 <= j < self.sections@.len() && #[trigger] self.sections@[j].covers_frame(n)
                ==> !self.boot_covers(n)
        &&& !self.boot_covers(VGA_BUFFER_FRAME as int)
        &&& !self.covered(MAGIC_PAGE_NUMBER as int)
    }
}

/// The flag bits an identity-mapped kernel section carries: writable
/// sections may be written, non-executable sections may not be run.
pub open spec fn section_flag_bits(s: KernelSection) -> u64 {
    (if s.writable { WRITABLE } else { 0 }) | (if s.executable { 0 } else { crate::entry::NO_EXEC })
}

} // verus!
