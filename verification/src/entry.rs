//! Page-table entry encoding: a 64-bit slot holding a frame address and
//! protection flags, exactly as the hardware page walker reads it.

use vstd::prelude::*;
use crate::PAGE_SIZE;
use crate::memory::{Frame, FRAME_LIMIT};

verus! {

/// Target exists.
pub const PRESENT: u64 = 1u64 << 0;
/// Target may be written to.
pub const WRITABLE: u64 = 1u64 << 1;
/// Target may be reached from user mode.
pub const ACCESSIBLE: u64 = 1u64 << 2;
/// Bypass the cache when writing.
pub const WRITETHROUGH: u64 = 1u64 << 3;
/// Disable caching entirely.
pub const NO_CACHE: u64 = 1u64 << 4;
/// Target has been read.
pub const ACCESSED: u64 = 1u64 << 5;
/// Target has been written to.
pub const DIRTY: u64 = 1u64 << 6;
/// Entry maps a region larger than one page and ends the walk early.
pub const HUGE_PAGE: u64 = 1u64 << 7;
/// Keep the cached translation on an address-space switch.
pub const GLOBAL: u64 = 1u64 << 8;
/// Forbid executing code in the target.
pub const NO_EXEC: u64 = 1u64 << 63;

/// Every flag bit this subsystem knows.
pub const ALL_FLAGS: u64 = PRESENT | WRITABLE | ACCESSIBLE | WRITETHROUGH | NO_CACHE
    | ACCESSED | DIRTY | HUGE_PAGE | GLOBAL | NO_EXEC;

/// Bits 12..=51: the 4 KiB-aligned physical address stored in an entry.
pub const PAGE_ALIGNED_52_BIT_MASK: u64 = 0x000F_FFFF_FFFF_F000;

/// Is the present bit set in raw entry bits?
pub open spec fn entry_present(bits: u64) -> bool {
    bits & PRESENT == PRESENT
}

/// Is the huge-page bit set in raw entry bits?
pub open spec fn entry_huge(bits: u64) -> bool {
    bits & HUGE_PAGE == HUGE_PAGE
}

/// The frame number stored in raw entry bits.
pub open spec fn entry_frame(bits: u64) -> int {
    ((bits & PAGE_ALIGNED_52_BIT_MASK) / PAGE_SIZE) as int
}

/// The flag bits of raw entry bits, unknown bits dropped.
pub open spec fn entry_flag_bits(bits: u64) -> u64 {
    bits & ALL_FLAGS
}

/// Raw bits that encode `frame` with flag bits `flags`.
pub open spec fn encode_entry(frame: int, flags: u64) -> u64 {
    (frame * PAGE_SIZE as int) as u64 | flags
}

/// A set of protection/caching flags, as stored in an entry.
///
/// Well-formed values only carry known flag bits, so that combining them
/// with a frame address never disturbs the address field.
#[derive(Debug, Clone, Copy, PartialEq, Eq, Structural)]
pub struct EntryFlags {
    pub bits: u64,
}

impl EntryFlags {
    /// Only known flag bits are set.
    pub open spec fn wf(self) -> bool {
        self.bits & ALL_FLAGS == self.bits
    }

    /// No flags at all.
    pub fn empty() -> (r: EntryFlags)
        ensures
            r.bits == 0,
            r.wf(),
    {
        proof {
            lemma_flag_algebra(0, 0);
        }
        EntryFlags { bits: 0 }
    }

    /// Keep the known flag bits of `bits` and drop the rest.
    pub fn from_bits_truncate(bits: u64) -> (r: EntryFlags)
        ensures
            r.bits == bits & ALL_FLAGS,
            r.wf(),
    {
        proof {
            lemma_flag_algebra(bits, 0);
        }
        EntryFlags { bits: bits & ALL_FLAGS }
    }

    /// The raw flag bits.
    pub fn bits(&self) -> (r: u64)
        ensures
            r == self.bits,
    {
        self.bits
    }

    /// Are all flags of `other` set in `self`?
    pub fn contains(&self, other: EntryFlags) -> (r: bool)
        ensures
            r == (self.bits & other.bits == other.bits),
    {
        self.bits & other.bits == other.bits
    }

    /// Add the flags of `other`.
    pub fn insert(&mut self, other: EntryFlags)
        requires
            old(self).wf(),
            other.wf(),
        ensures
            final(self).bits == old(self).bits | other.bits,
            final(self).wf(),
    {
        proof {
            lemma_flag_algebra(self.bits, other.bits);
        }
        self.bits = self.bits | other.bits;
    }

    /// Drop the flags of `other`.
    pub fn remove(&mut self, other: EntryFlags)
        requires
            old(self).wf(),
        ensures
            final(self).bits == old(self).bits & !other.bits,
            final(self).wf(),
    {
        proof {
            lemma_flag_algebra(self.bits, other.bits);
        }
        self.bits = self.bits & !other.bits;
    }

    /// Protection flags for an identity-mapped kernel section, derived
    /// from its writable/executable attributes: read-only and
    /// executable for code, writable and no-exec for data.
    pub fn from_elf_section(section: &crate::boot::KernelSection) -> (r: EntryFlags)
        ensures
            r.bits == crate::boot::section_flag_bits(*section),
            r.wf(),
    {
        let w: u64 = if section.writable {
            WRITABLE
        } else {
            0
        };
        let x: u64 = if section.executable {
            0
        } else {
            NO_EXEC
        };
        proof {
            lemma_flag_algebra(w, x);
        }
        EntryFlags { bits: w | x }
    }

    /// Combine two flag sets.
    pub fn union(self, other: EntryFlags) -> (r: EntryFlags)
        requires
            self.wf(),
            other.wf(),
        ensures
            r.bits == self.bits | other.bits,
            r.wf(),
    {
        proof {
            lemma_flag_algebra(self.bits, other.bits);
        }
        EntryFlags { bits: self.bits | other.bits }
    }
}

/// One 64-bit slot of a page table.
#[derive(Debug, Clone, Copy, PartialEq, Eq, Structural)]
pub struct PageEntry(pub u64);

impl PageEntry {
    /// An entry is unused when its present bit is clear; all its other
    /// bits are then ignored by the walk.
    pub fn is_unused(&self) -> (r: bool)
        ensures
            r == !entry_present(self.0),
    {
        self.0 & PRESENT != PRESENT
    }

    /// Clear the present bit, keeping the stored address and the other
    /// known flags.
    pub fn mark_unused(&mut self)
        ensures
            final(self).0 == cleared_bits(old(self).0),
            !entry_present(final(self).0),
            entry_frame(final(self).0) == if entry_present(old(self).0) { entry_frame(old(self).0) } else { 0 },
    {
        let mut flags = self.flags();
        flags.remove(EntryFlags { bits: PRESENT });
        self.set_flags(flags);
        proof {
            lemma_entry_bits(old(self).0);
        }
    }

    /// The known flag bits of this entry.
    pub fn flags(&self) -> (r: EntryFlags)
        ensures
            r.bits == entry_flag_bits(self.0),
            r.wf(),
    {
        EntryFlags::from_bits_truncate(self.0)
    }

    /// The frame this entry points at, if the entry is present.
    pub fn target_frame(&self) -> (r: Option<Frame>)
        ensures
            r == if entry_present(self.0) {
                Some(Frame { frame_num: entry_frame(self.0) as u64 })
            } else {
                None::<Frame>
            },
    {
        proof {
            lemma_entry_bits(self.0);
        }
        if self.0 & PRESENT == PRESENT {
            Some(Frame { frame_num: (self.0 & PAGE_ALIGNED_52_BIT_MASK) / (PAGE_SIZE as u64) })
        } else {
            None
        }
    }

    /// Point this entry at `frame` with exactly the given flags.
    pub fn set(&mut self, frame: Frame, flags: EntryFlags)
        requires
            frame.frame_num < FRAME_LIMIT,
            flags.wf(),
        ensures
            final(self).0 == encode_entry(frame.frame_num as int, flags.bits),
    {
        self.0 = frame.address() | flags.bits();
    }

    /// Replace the stored frame, keeping the known flags.
    pub fn set_frame(&mut self, frame: Frame)
        requires
            frame.frame_num < FRAME_LIMIT,
        ensures
            final(self).0 == encode_entry(frame.frame_num as int, entry_flag_bits(old(self).0)),
    {
        let bits = self.flags().bits();
        let addr = frame.address();
        proof {
            lemma_flag_algebra(bits, addr);
        }
        self.0 = bits | addr;
    }

    /// Replace the flags, keeping the stored frame if the entry is
    /// present and dropping it otherwise.
    pub fn set_flags(&mut self, flags: EntryFlags)
        requires
            flags.wf(),
        ensures
            final(self).0 == if entry_present(old(self).0) {
                (old(self).0 & PAGE_ALIGNED_52_BIT_MASK) | flags.bits
            } else {
                flags.bits
            },
    {
        self.0 = match self.target_frame() {
            Some(frame) => {
                proof {
                    lemma_entry_bits(self.0);
                }
                frame.address() | flags.bits()
            },
            None => flags.bits(),
        };
    }
}

/// Bits left after `mark_unused`: the address field plus the known flags
/// other than the present bit.
pub open spec fn cleared_bits(b: u64) -> u64 {
    if entry_present(b) {
        (b & PAGE_ALIGNED_52_BIT_MASK) | ((b & ALL_FLAGS) & !PRESENT)
    } else {
        (b & ALL_FLAGS) & !PRESENT
    }
}

/// The flag-bit algebra, proved once and reused everywhere: combining
/// well-formed flag sets with `|`, `&` and `!` stays within the known
/// flags, and the named combinations carry exactly the bits they are
/// built from.
pub proof fn lemma_flag_algebra(a: u64, b: u64)
    ensures
        0u64 & ALL_FLAGS == 0u64,
        (a & ALL_FLAGS) & ALL_FLAGS == a & ALL_FLAGS,
        a & ALL_FLAGS == a && b & ALL_FLAGS == b ==> (a | b) & ALL_FLAGS == (a | b),
        a & ALL_FLAGS == a ==> (a & !b) & ALL_FLAGS == (a & !b),
        a | b == b | a,
        PRESENT & ALL_FLAGS == PRESENT,
        WRITABLE & ALL_FLAGS == WRITABLE,
        (PRESENT | WRITABLE) & ALL_FLAGS == (PRESENT | WRITABLE),
        (PRESENT | WRITABLE) & PRESENT == PRESENT,
        (WRITABLE | PRESENT) & PRESENT == PRESENT,
        (PRESENT | WRITABLE) & HUGE_PAGE != HUGE_PAGE,
        PRESENT | PRESENT == PRESENT,
        PRESENT & PRESENT == PRESENT,
        PRESENT & HUGE_PAGE != HUGE_PAGE,
        (WRITABLE | PRESENT) & ALL_FLAGS == (WRITABLE | PRESENT),
        (a == WRITABLE || a == 0) && (b == NO_EXEC || b == 0) ==> ((a | b) & ALL_FLAGS == (a | b)
            && ((a | b) | PRESENT) & ALL_FLAGS == ((a | b) | PRESENT)
            && ((a | b) | PRESENT) & PRESENT == PRESENT),
        a & ALL_FLAGS == a ==> (a | PRESENT) & ALL_FLAGS == (a | PRESENT),
        (a | PRESENT) & PRESENT == PRESENT,
        !entry_present(0u64),
        !entry_huge(0u64),
{
    assert((0u64 & ALL_FLAGS == 0u64) && ((a & ALL_FLAGS) & ALL_FLAGS == a & ALL_FLAGS) && ((a
        & ALL_FLAGS == a && b & ALL_FLAGS == b) ==> (a | b) & ALL_FLAGS == (a | b)) && ((a
        & ALL_FLAGS == a) ==> (a & !b) & ALL_FLAGS == (a & !b)) && (a | b == b | a) && (PRESENT
        & ALL_FLAGS == PRESENT) && (WRITABLE & ALL_FLAGS == WRITABLE) && ((PRESENT | WRITABLE)
        & ALL_FLAGS == (PRESENT | WRITABLE)) && ((PRESENT | WRITABLE) & PRESENT == PRESENT) && ((
        WRITABLE | PRESENT) & PRESENT == PRESENT) && ((PRESENT | WRITABLE) & HUGE_PAGE
        != HUGE_PAGE) && (PRESENT | PRESENT == PRESENT) && (PRESENT & PRESENT == PRESENT) && (PRESENT & HUGE_PAGE
        != HUGE_PAGE) && ((WRITABLE | PRESENT) & ALL_FLAGS == (WRITABLE | PRESENT)) && (((a == WRITABLE || a == 0u64) && (b
        == NO_EXEC || b == 0u64)) ==> ((a | b) & ALL_FLAGS == (a | b) && ((a | b) | PRESENT)
        & ALL_FLAGS == ((a | b) | PRESENT) && ((a | b) | PRESENT) & PRESENT == PRESENT)) && ((a
        & ALL_FLAGS == a) ==> (a | PRESENT) & ALL_FLAGS == (a | PRESENT)) && ((a | PRESENT)
        & PRESENT == PRESENT) && (0u64 & PRESENT != PRESENT) && (0u64 & HUGE_PAGE != HUGE_PAGE))
        by (bit_vector);
}

/// How the fields of raw entry bits relate, proved once: the flag view
/// carries the present and huge bits, the stored frame is bounded and
/// reproduces the address field, and clearing an entry keeps its frame.
pub proof fn lemma_entry_bits(b: u64)
    ensures
        (entry_flag_bits(b) & PRESENT == PRESENT) == entry_present(b),
        (entry_flag_bits(b) & HUGE_PAGE == HUGE_PAGE) == entry_huge(b),
        0 <= entry_frame(b) < 0x100_0000_0000,
        entry_frame(b) * PAGE_SIZE == b & PAGE_ALIGNED_52_BIT_MASK,
        !entry_present(cleared_bits(b)),
        entry_present(b) ==> entry_frame(cleared_bits(b)) == entry_frame(b),
        !entry_present(b) ==> entry_frame(cleared_bits(b)) == 0,
{
    assert((((b & ALL_FLAGS) & PRESENT == PRESENT) == (b & PRESENT == PRESENT)) && (((b
        & ALL_FLAGS) & HUGE_PAGE == HUGE_PAGE) == (b & HUGE_PAGE == HUGE_PAGE)) && ((b
        & PAGE_ALIGNED_52_BIT_MASK) / 4096u64 < 0x100_0000_0000u64) && (((b
        & PAGE_ALIGNED_52_BIT_MASK) / 4096u64) * 4096u64 == (b & PAGE_ALIGNED_52_BIT_MASK))
        && ((((b & PAGE_ALIGNED_52_BIT_MASK) | ((b & ALL_FLAGS) & !PRESENT)) & PRESENT
        != PRESENT)) && (((b & ALL_FLAGS) & !PRESENT) & PRESENT != PRESENT) && ((((b
        & PAGE_ALIGNED_52_BIT_MASK) | ((b & ALL_FLAGS) & !PRESENT)) & PAGE_ALIGNED_52_BIT_MASK)
        == (b & PAGE_ALIGNED_52_BIT_MASK)) && ((((b & ALL_FLAGS) & !PRESENT)
        & PAGE_ALIGNED_52_BIT_MASK) == 0u64)) by (bit_vector);
}

} // verus!
