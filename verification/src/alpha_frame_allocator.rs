//! A forward-only frame allocator: one cursor sweeps the firmware-reported
//! usable regions in order, skipping the kernel-image interval and the
//! boot-information interval, and never hands a frame out twice.

use vstd::prelude::*;
use vstd::arithmetic::div_mod::lemma_fundamental_div_mod;
use crate::PAGE_SIZE;
use crate::memory::{Frame, FrameAllocator, MemoryRegion, ranges_overlap, ADDR_SPACE, FRAME_LIMIT};

verus! {

/// The smallest page-aligned address at or above `a`.
pub open spec fn align_up(a: int) -> int {
    ((a + PAGE_SIZE - 1) / (PAGE_SIZE as int)) * PAGE_SIZE
}

proof fn lemma_align_up(b: int)
    requires
        0 <= b,
    ensures
        b <= align_up(b) < b + PAGE_SIZE,
        align_up(b) % (PAGE_SIZE as int) == 0,
    {
    let p = PAGE_SIZE as int;
    lemma_fundamental_div_mod(b + p - 1, p);
    vstd::arithmetic::div_mod::lemma_mod_multiples_basic((b + p - 1) / p, p);
}

proof fn lemma_align_up_le_multiple(b: int, n: int)
    requires
        0 <= b,
        n * PAGE_SIZE >= b,
    ensures
        n * PAGE_SIZE >= align_up(b),
{
    let p = PAGE_SIZE as int;
    lemma_fundamental_div_mod(b + p - 1, p);
    let q = (b + p - 1) / p;
    if n * p < q * p {
        assert(n < q);
        assert(n * p <= (q - 1) * p) by (nonlinear_arith)
            requires n <= q - 1, p > 0;
        assert((q - 1) * p == q * p - p) by (nonlinear_arith);
        assert(n * p < b);
    }
}

/// A page-aligned integer is an exact multiple of the page size.
proof fn lemma_aligned_is_multiple(a: int)
    requires
        0 <= a,
        a % (PAGE_SIZE as int) == 0,
    ensures
        (a / (PAGE_SIZE as int)) * PAGE_SIZE == a,
{
    lemma_fundamental_div_mod(a, PAGE_SIZE as int);
}

/// The non-reclaiming frame allocator: a cursor over the usable-memory
/// regions, plus the two reserved intervals it must never touch.
///
/// Deallocation is deliberately a no-op in this bring-up phase; the
/// cursor only moves forward, so issued frames are strictly increasing.
pub struct AlphaFrameAllocator {
    pub curr_frame_addr: u64,
    pub curr_section: usize,
    pub regions: Vec<MemoryRegion>,
    pub kernel_start: u64,
    pub kernel_length: u64,
    pub multiboot_start: u64,
    pub multiboot_length: u64,
}

impl AlphaFrameAllocator {
    /// Structural well-formedness: regions are address-ordered and lie in
    /// the physical address space, the reserved intervals do too, and the
    /// cursor is page-aligned.
    pub open spec fn wf(self) -> bool {
        &&& self.curr_section <= self.regions@.len()
        &&& forall|i: int| 0 <= i < self.regions@.len() ==> (#[trigger] self.regions@[i]).wf()
        &&& forall|i: int, j: int|
            0 <= i <= j < self.regions@.len() ==> (#[trigger] self.regions@[i]).base_addr
                <= (#[trigger] self.regions@[j]).base_addr
        &&& self.kernel_start + self.kernel_length <= ADDR_SPACE
        &&& self.multiboot_start + self.multiboot_length <= ADDR_SPACE
        &&& self.curr_frame_addr % PAGE_SIZE == 0
        &&& self.curr_frame_addr <= ADDR_SPACE + PAGE_SIZE
    }

    /// Does the frame starting at address `a` touch a reserved interval?
    pub open spec fn reserved_hit(self, a: int) -> bool {
        ||| ranges_overlap(a, a + PAGE_SIZE, self.kernel_start as int,
                self.kernel_start + self.kernel_length)
        ||| ranges_overlap(a, a + PAGE_SIZE, self.multiboot_start as int,
                self.multiboot_start + self.multiboot_length)
    }

    /// May frame number `n` still be issued?  It must lie at or past the
    /// cursor, inside one of the remaining regions, and off both
    /// reserved intervals.
    pub open spec fn issuable_frame(self, n: int) -> bool {
        &&& n * PAGE_SIZE >= self.curr_frame_addr
        &&& exists|j: int|
            self.curr_section <= j < self.regions@.len()
                && (#[trigger] self.regions@[j]).holds_frame(n)
        &&& !self.reserved_hit(n * PAGE_SIZE)
    }

    /// Build an allocator over the given regions, excluding the kernel
    /// image `[kernel_start, kernel_start + kernel_length)` and the boot
    /// information block `[multiboot_start, multiboot_start + multiboot_length)`.
    pub fn new(kernel_start: u64, kernel_length: u64, multiboot_start: u64,
        multiboot_length: u64, memory_areas: Vec<MemoryRegion>) -> (r: AlphaFrameAllocator)
        requires
            kernel_start + kernel_length <= ADDR_SPACE,
            multiboot_start + multiboot_length <= ADDR_SPACE,
            forall|i: int| 0 <= i < memory_areas@.len() ==> (#[trigger] memory_areas@[i]).wf(),
            forall|i: int, j: int|
                0 <= i <= j < memory_areas@.len() ==> (#[trigger] memory_areas@[i]).base_addr
                    <= (#[trigger] memory_areas@[j]).base_addr,
        ensures
            r.wf(),
            r.curr_frame_addr == 0,
            r.curr_section == 0,
            r.regions@ == memory_areas@,
            r.kernel_start == kernel_start,
            r.kernel_length == kernel_length,
            r.multiboot_start == multiboot_start,
            r.multiboot_length == multiboot_length,
    {
        AlphaFrameAllocator {
            curr_frame_addr: 0,
            curr_section: 0,
            regions: memory_areas,
            kernel_start,
            kernel_length,
            multiboot_start,
            multiboot_length,
        }
    }

    /// Advance to the next region once the cursor's frame no longer fits
    /// inside the current one.  Reports whether a correction was made.
    fn section_needed_correction(&mut self) -> (r: bool)
        requires
            old(self).wf(),
        ensures
            final(self).wf(),
            final(self).issuable() == old(self).issuable(),
            final(self).regions@ == old(self).regions@,
            final(self).kernel_start == old(self).kernel_start,
            final(self).kernel_length == old(self).kernel_length,
            final(self).multiboot_start == old(self).multiboot_start,
            final(self).multiboot_length == old(self).multiboot_length,
            final(self).curr_frame_addr == old(self).curr_frame_addr,
            r == (old(self).curr_section < old(self).regions@.len()
                && old(self).curr_frame_addr + PAGE_SIZE
                    > old(self).regions@[old(self).curr_section as int].end()),
            r ==> final(self).curr_section == old(self).curr_section + 1,
            !r ==> *final(self) == *old(self),
    {
        if self.curr_section < self.regions.len() {
            let sec = self.regions[self.curr_section];
            let end = sec.base_addr + sec.length;
            if self.curr_frame_addr + PAGE_SIZE > end {
                let ghost pre = *self;
                self.curr_section = self.curr_section + 1;
                proof {
                    assert forall|n: int| pre.issuable_frame(n) implies self.issuable_frame(n) by {
                        let j = choose|j: int|
                            pre.curr_section <= j < pre.regions@.len()
                                && (#[trigger] pre.regions@[j]).holds_frame(n);
                        assert(j != pre.curr_section);
                        assert(self.curr_section <= j < self.regions@.len()
                            && self.regions@[j].holds_frame(n));
                    }
                    assert forall|n: int| self.issuable_frame(n) implies pre.issuable_frame(n) by {
                        let j = choose|j: int|
                            self.curr_section <= j < self.regions@.len()
                                && (#[trigger] self.regions@[j]).holds_frame(n);
                        assert(pre.curr_section <= j < pre.regions@.len()
                            && pre.regions@[j].holds_frame(n));
                    }
                    assert(self.issuable() =~= pre.issuable());
                }
                true
            } else {
                false
            }
        } else {
            false
        }
    }

    /// Fast-forward the cursor to the current region's first full frame,
    /// or step it past a reserved frame.  Reports whether a correction
    /// was made.
    fn frame_needed_correction(&mut self) -> (r: bool)
        requires
            old(self).wf(),
        ensures
            final(self).wf(),
            final(self).issuable() == old(self).issuable(),
            final(self).regions@ == old(self).regions@,
            final(self).kernel_start == old(self).kernel_start,
            final(self).kernel_length == old(self).kernel_length,
            final(self).multiboot_start == old(self).multiboot_start,
            final(self).multiboot_length == old(self).multiboot_length,
            final(self).curr_section == old(self).curr_section,
            r == (old(self).curr_section < old(self).regions@.len()
                && (old(self).curr_frame_addr
                    < old(self).regions@[old(self).curr_section as int].base_addr
                    || old(self).reserved_hit(old(self).curr_frame_addr as int))),
            r ==> final(self).curr_frame_addr > old(self).curr_frame_addr,
            r ==> final(self).curr_frame_addr as int == (if old(self).curr_frame_addr
                < old(self).regions@[old(self).curr_section as int].base_addr {
                align_up(old(self).regions@[old(self).curr_section as int].base_addr as int)
            } else {
                old(self).curr_frame_addr + PAGE_SIZE
            }),
            !r ==> *final(self) == *old(self),
    {
        if self.curr_section >= self.regions.len() {
            return false;
        }
        let sec = self.regions[self.curr_section];
        if self.curr_frame_addr < sec.base_addr {
            let ghost pre = *self;
            proof {
                lemma_align_up(sec.base_addr as int);
            }
            let ff = (sec.base_addr + PAGE_SIZE - 1) / PAGE_SIZE * PAGE_SIZE;
            self.curr_frame_addr = ff;
            proof {
                assert forall|n: int| pre.issuable_frame(n) implies self.issuable_frame(n) by {
                    let j = choose|j: int|
                        pre.curr_section <= j < pre.regions@.len()
                            && (#[trigger] pre.regions@[j]).holds_frame(n);
                    assert(pre.regions@[pre.curr_section as int].base_addr
                        <= pre.regions@[j].base_addr);
                    assert(n * PAGE_SIZE >= sec.base_addr);
                    lemma_align_up_le_multiple(sec.base_addr as int, n);
                    assert(self.curr_section <= j < self.regions@.len()
                        && (#[trigger] self.regions@[j]).holds_frame(n));
                }
                assert forall|n: int| self.issuable_frame(n) implies pre.issuable_frame(n) by {
                    let j = choose|j: int|
                        self.curr_section <= j < self.regions@.len()
                            && (#[trigger] self.regions@[j]).holds_frame(n);
                    assert(pre.curr_section <= j < pre.regions@.len()
                        && (#[trigger] pre.regions@[j]).holds_frame(n));
                    assert(n * PAGE_SIZE >= pre.curr_frame_addr);
                }
                assert(self.issuable() =~= pre.issuable());
            }
            true
        } else {
            let k_end = self.kernel_start + self.kernel_length;
            let m_end = self.multiboot_start + self.multiboot_length;
            let a = self.curr_frame_addr;
            let hit = (a < k_end && self.kernel_start < a + PAGE_SIZE)
                || (a < m_end && self.multiboot_start < a + PAGE_SIZE);
            if hit {
                let ghost pre = *self;
                self.curr_frame_addr = self.curr_frame_addr + PAGE_SIZE;
                proof {
                    lemma_aligned_is_multiple(pre.curr_frame_addr as int);
                    let c = pre.curr_frame_addr as int / (PAGE_SIZE as int);
                    assert(pre.reserved_hit(c * PAGE_SIZE));
                    assert forall|n: int| pre.issuable_frame(n) implies self.issuable_frame(n) by {
                        let j = choose|j: int|
                            pre.curr_section <= j < pre.regions@.len()
                                && (#[trigger] pre.regions@[j]).holds_frame(n);
                        assert(self.curr_section <= j < self.regions@.len()
                            && (#[trigger] self.regions@[j]).holds_frame(n));
                        assert(n * PAGE_SIZE >= c * PAGE_SIZE);
                        assert(n * PAGE_SIZE != c * PAGE_SIZE);
                        assert(n >= c + 1);
                        assert(n * PAGE_SIZE >= (c + 1) * PAGE_SIZE) by (nonlinear_arith)
                            requires n >= c + 1;
                        assert((c + 1) * PAGE_SIZE == c * PAGE_SIZE + PAGE_SIZE) by (nonlinear_arith);
                    }
                    assert forall|n: int| self.issuable_frame(n) implies pre.issuable_frame(n) by {
                        let j = choose|j: int|
                            self.curr_section <= j < self.regions@.len()
                                && (#[trigger] self.regions@[j]).holds_frame(n);
                        assert(pre.curr_section <= j < pre.regions@.len()
                            && (#[trigger] pre.regions@[j]).holds_frame(n));
                        assert(n * PAGE_SIZE >= pre.curr_frame_addr);
                    }
                    assert(self.issuable() =~= pre.issuable());
                }
                true
            } else {
                false
            }
        }
    }
}

/// What one call of `allocate_frame` does to an `AlphaFrameAllocator`:
/// the configuration is untouched, and an issued frame was the lowest
/// one still issuable, with the cursor moved just past it.
pub open spec fn allocate_step(pre: AlphaFrameAllocator, post: AlphaFrameAllocator,
    r: Option<Frame>) -> bool {
    &&& post.regions@ == pre.regions@
    &&& post.kernel_start == pre.kernel_start
    &&& post.kernel_length == pre.kernel_length
    &&& post.multiboot_start == pre.multiboot_start
    &&& post.multiboot_length == pre.multiboot_length
    &&& post.wf()
    &&& match r {
        Some(f) => {
            &&& pre.issuable_frame(f.frame_num as int)
            &&& forall|m: int| #[trigger] pre.issuable_frame(m) ==> m >= f.frame_num
            &&& f.frame_num < FRAME_LIMIT
            &&& post.curr_frame_addr == f.frame_num * PAGE_SIZE + PAGE_SIZE
        },
        None => post.curr_frame_addr >= pre.curr_frame_addr,
    }
}

impl FrameAllocator for AlphaFrameAllocator {
    open spec fn inv(&self) -> bool {
        self.wf()
    }

    open spec fn issuable(&self) -> Set<int> {
        Set::new(|n: int| self.issuable_frame(n))
    }

    /// Sweep forward to the next frame that fits a region and misses the
    /// reserved intervals; `None` once the regions are exhausted.
    fn allocate_frame(&mut self) -> (r: Option<Frame>)
        ensures
            allocate_step(*old(self), *final(self), r),
    {
        loop
            invariant
                self.wf(),
                self.issuable() == old(self).issuable(),
                self.regions@ == old(self).regions@,
                self.kernel_start == old(self).kernel_start,
                self.kernel_length == old(self).kernel_length,
                self.multiboot_start == old(self).multiboot_start,
                self.multiboot_length == old(self).multiboot_length,
                self.curr_frame_addr >= old(self).curr_frame_addr,
            ensures
                self.curr_section >= self.regions@.len() || {
                    let sec = self.regions@[self.curr_section as int];
                    &&& self.curr_frame_addr + PAGE_SIZE <= sec.end()
                    &&& self.curr_frame_addr >= sec.base_addr
                    &&& !self.reserved_hit(self.curr_frame_addr as int)
                },
            decreases
                self.regions@.len() - self.curr_section,
                ADDR_SPACE + 2 * PAGE_SIZE - self.curr_frame_addr,
        {
            let advanced = self.section_needed_correction();
            if !advanced {
                let corrected = self.frame_needed_correction();
                if !corrected {
                    break;
                }
            }
        }
        if self.curr_section >= self.regions.len() {
            proof {
                assert forall|n: int| !self.issuable_frame(n) by {
                    if self.issuable_frame(n) {
                        let j = choose|j: int|
                            self.curr_section <= j < self.regions@.len()
                                && (#[trigger] self.regions@[j]).holds_frame(n);
                    }
                }
                assert(self.issuable() =~= Set::<int>::empty());
                assert(old(self).issuable() =~= Set::<int>::empty());
            }
            None
        } else {
            let n = self.curr_frame_addr / PAGE_SIZE;
            let ghost pre = *self;
            proof {
                lemma_aligned_is_multiple(self.curr_frame_addr as int);
                assert(self.regions@[self.curr_section as int].holds_frame(n as int));
                assert(pre.issuable_frame(n as int));
                assert(pre.issuable().contains(n as int));
                assert forall|m: int| #[trigger] old(self).issuable_frame(m) implies
                    m >= n as int by {
                    assert(old(self).issuable().contains(m));
                    assert(pre.issuable().contains(m));
                    assert(m * PAGE_SIZE >= pre.curr_frame_addr);
                }
            }
            let result = Frame { frame_num: n };
            self.curr_frame_addr = self.curr_frame_addr + PAGE_SIZE;
            proof {
                let c = n as int;
                assert forall|m: int| self.issuable_frame(m) implies
                    pre.issuable_frame(m) && m != c by {
                    let j = choose|j: int|
                        self.curr_section <= j < self.regions@.len()
                            && (#[trigger] self.regions@[j]).holds_frame(m);
                    assert(pre.curr_section <= j < pre.regions@.len()
                        && (#[trigger] pre.regions@[j]).holds_frame(m));
                    assert(m * PAGE_SIZE >= pre.curr_frame_addr);
                    assert(m * PAGE_SIZE > c * PAGE_SIZE);
                }
                assert forall|m: int| pre.issuable_frame(m) && m != c implies
                    self.issuable_frame(m) by {
                    let j = choose|j: int|
                        pre.curr_section <= j < pre.regions@.len()
                            && (#[trigger] pre.regions@[j]).holds_frame(m);
                    assert(self.curr_section <= j < self.regions@.len()
                        && (#[trigger] self.regions@[j]).holds_frame(m));
                    assert(m * PAGE_SIZE >= c * PAGE_SIZE);
                    assert(m * PAGE_SIZE != c * PAGE_SIZE);
                    assert(m >= c + 1);
                    assert(m * PAGE_SIZE >= (c + 1) * PAGE_SIZE) by (nonlinear_arith)
                        requires m >= c + 1;
                    assert((c + 1) * PAGE_SIZE == c * PAGE_SIZE + PAGE_SIZE) by (nonlinear_arith);
                }
                assert(self.issuable() =~= pre.issuable().remove(c));
                assert(self.issuable() =~= old(self).issuable().remove(c));
            }
            Some(result)
        }
    }

    /// Deallocation is a stub by design: the frame is leaked and the
    /// allocator is unchanged.
    fn deallocate_frame(&mut self, frame: Frame)
        ensures
            *final(self) == *old(self),
    {
    }
}

/// Two frames issued in sequence come out in strictly increasing order,
/// each lying wholly inside a declared usable region and missing both the
/// kernel-image interval and the boot-information interval.
pub proof fn lemma_frames_issued_in_order(s0: AlphaFrameAllocator, s1: AlphaFrameAllocator,
    s2: AlphaFrameAllocator, f1: Frame, f2: Frame)
    requires
        allocate_step(s0, s1, Some(f1)),
        allocate_step(s1, s2, Some(f2)),
    ensures
        f1.frame_num < f2.frame_num,
        exists|j: int|
            0 <= j < s0.regions@.len()
                && (#[trigger] s0.regions@[j]).holds_frame(f1.frame_num as int),
        exists|j: int|
            0 <= j < s0.regions@.len()
                && (#[trigger] s0.regions@[j]).holds_frame(f2.frame_num as int),
        !s0.reserved_hit(f1.frame_num * PAGE_SIZE),
        !s0.reserved_hit(f2.frame_num * PAGE_SIZE),
{
    let n1 = f1.frame_num as int;
    let n2 = f2.frame_num as int;
    assert(n2 * PAGE_SIZE >= s1.curr_frame_addr);
    assert(n2 * PAGE_SIZE > n1 * PAGE_SIZE);
    let j1 = choose|j: int|
        s0.curr_section <= j < s0.regions@.len() && (#[trigger] s0.regions@[j]).holds_frame(n1);
    assert(0 <= j1 < s0.regions@.len() && s0.regions@[j1].holds_frame(n1));
    let j2 = choose|j: int|
        s1.curr_section <= j < s1.regions@.len() && (#[trigger] s1.regions@[j]).holds_frame(n2);
    assert(0 <= j2 < s0.regions@.len() && s0.regions@[j2].holds_frame(n2));
}

} // verus!

