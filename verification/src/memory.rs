//! Physical frames and the allocator interface.

use vstd::prelude::*;
use crate::PAGE_SIZE;

verus! {

/// Frame numbers stay below this bound so that a frame's base address fits
/// in the 52-bit physical-address field of a page-table entry.
pub const FRAME_LIMIT: u64 = 0x100_0000_0000;

/// One more than the largest physical address: 52 address bits.
pub const ADDR_SPACE: u64 = FRAME_LIMIT * PAGE_SIZE;

/// A usable-memory descriptor reported by the firmware: `length` bytes
/// starting at `base_addr`.
#[derive(Debug, Clone, Copy, PartialEq, Eq, Structural)]
pub struct MemoryRegion {
    pub base_addr: u64,
    pub length: u64,
}

impl MemoryRegion {
    /// The region lies within the physical address space.
    pub open spec fn wf(self) -> bool {
        self.base_addr + self.length <= ADDR_SPACE
    }

    /// One past the last byte of the region.
    pub open spec fn end(self) -> int {
        self.base_addr + self.length
    }

    /// Does the frame with number `n` lie wholly inside the region?
    pub open spec fn holds_frame(self, n: int) -> bool {
        self.base_addr <= n * PAGE_SIZE && n * PAGE_SIZE + PAGE_SIZE <= self.end()
    }
}

/// Do the half-open intervals `[a1, e1)` and `[a2, e2)` share a byte?
pub open spec fn ranges_overlap(a1: int, e1: int, a2: int, e2: int) -> bool {
    a1 < e2 && a2 < e1
}

/// One physical page, identified by its index.
#[derive(Debug, Clone, Copy, PartialEq, Eq, Structural)]
pub struct Frame {
    pub frame_num: u64,
}

impl Frame {
    /// The frame that holds the given physical address.
    pub fn frame_containing_address(addr: u64) -> (f: Frame)
        ensures
            f.frame_num == addr / PAGE_SIZE,
    {
        Frame { frame_num: addr / PAGE_SIZE }
    }

    /// Base address of the frame.
    pub fn address(&self) -> (a: u64)
        requires
            self.frame_num < FRAME_LIMIT,
        ensures
            a == self.frame_num * PAGE_SIZE,
    {
        self.frame_num * PAGE_SIZE
    }
}

/// Does the finite or infinite set `s` hold at least `n` elements?
pub open spec fn at_least(s: Set<int>, n: nat) -> bool {
    exists|t: Set<int>| t.finite() && t.subset_of(s) && t.len() == n
}

/// A smaller count can always be met where a larger one can.
pub proof fn lemma_at_least_mono(s: Set<int>, m: nat, n: nat)
    requires
        at_least(s, n),
        m <= n,
    ensures
        at_least(s, m),
    decreases n,
{
    if m < n {
        let t = choose|t: Set<int>| t.finite() && t.subset_of(s) && t.len() == n;
        let x = t.choose();
        assert(t.len() != 0);
        assert(t.contains(x));
        assert(t.remove(x).finite() && t.remove(x).subset_of(s) && t.remove(x).len() == (n - 1) as nat);
        lemma_at_least_mono(s, m, (n - 1) as nat);
    }
}

/// Removing one element costs at most one from the count.
pub proof fn lemma_at_least_remove(s: Set<int>, x: int, n: nat)
    requires
        at_least(s, (n + 1) as nat),
    ensures
        at_least(s.remove(x), n),
{
    let t = choose|t: Set<int>| t.finite() && t.subset_of(s) && t.len() == n + 1;
    if t.contains(x) {
        assert(t.remove(x).finite() && t.remove(x).subset_of(s.remove(x)) && t.remove(x).len() == n);
    } else {
        let y = t.choose();
        assert(t.len() != 0);
        assert(t.contains(y));
        assert(t.remove(y).finite() && t.remove(y).subset_of(s.remove(x)) && t.remove(y).len() == n);
    }
}

/// Every set can meet a demand for nothing.
pub proof fn lemma_at_least_zero(s: Set<int>)
    ensures
        at_least(s, 0),
{
    let t = Set::<int>::empty();
    assert(t.finite() && t.subset_of(s) && t.len() == 0);
}

/// A set with at least one element has a member.
pub proof fn lemma_at_least_one_nonempty(s: Set<int>)
    requires
        at_least(s, 1),
    ensures
        exists|x: int| s.contains(x),
{
    let t = choose|t: Set<int>| t.finite() && t.subset_of(s) && t.len() == 1nat;
    assert(t.len() != 0);
    assert(t.contains(t.choose()));
    assert(s.contains(t.choose()));
}

/// A source of physical frames.
///
/// `issuable()` is the set of frame numbers the allocator may still hand
/// out.  Allocation always draws from that set and shrinks it by exactly
/// the frame returned, so no frame is ever issued twice.
pub trait FrameAllocator: Sized {
    /// The allocator's own structural invariant.
    spec fn inv(&self) -> bool;

    spec fn issuable(&self) -> Set<int>;

    /// Hand out a frame, or report exhaustion with `None`.
    fn allocate_frame(&mut self) -> (r: Option<Frame>)
        requires
            old(self).inv(),
        ensures
            final(self).inv(),
            match r {
                Some(f) => {
                    &&& old(self).issuable().contains(f.frame_num as int)
                    &&& final(self).issuable() == old(self).issuable().remove(f.frame_num as int)
                    &&& f.frame_num < FRAME_LIMIT
                },
                None => {
                    &&& final(self).issuable() == old(self).issuable()
                    &&& old(self).issuable() == Set::<int>::empty()
                },
            },
    ;

    /// Return a frame.  Implementations may reclaim it or leak it; the
    /// issuable set never grows beyond the returned frame itself.
    fn deallocate_frame(&mut self, frame: Frame)
        requires
            old(self).inv(),
        ensures
            final(self).inv(),
            final(self).issuable().subset_of(old(self).issuable().insert(frame.frame_num as int)),
    ;
}

} // verus!
