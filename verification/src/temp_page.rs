//! A throwaway page for transient mappings, backed by a private pool of
//! three pre-allocated frames: enough to create the three levels of
//! intermediate tables one mapping can possibly need, without calling
//! back into the main allocator mid-operation.

use vstd::prelude::*;
use crate::PAGE_SIZE;
use crate::entry::{entry_present, EntryFlags, WRITABLE};
use crate::memory::{at_least, Frame, FrameAllocator, FRAME_LIMIT};
use crate::paging::{ActivePageTable, Page, VirtualAddress};
use crate::pt_mapper::{frames_fresh, map_to_effect, unmap_effect};

verus! {

/// Frames held by a `MiniAllocator`.
pub const MINI_FRAME_COUNT: usize = 3;

/// An allocator over exactly three slots, filled once from the main
/// allocator.  Allocation takes the first filled slot; deallocation puts
/// a frame back into the first empty one.
pub struct MiniAllocator {
    pub frames: Vec<Option<Frame>>,
}

impl MiniAllocator {
    /// Three slots, distinct representable frames.
    pub open spec fn wf(self) -> bool {
        &&& self.frames@.len() == MINI_FRAME_COUNT
        &&& forall|i: int|
            0 <= i < self.frames@.len() ==> ((#[trigger] self.frames@[i]) matches Some(f)
                ==> f.frame_num < FRAME_LIMIT)
        &&& forall|i: int, j: int|
            0 <= i < j < self.frames@.len() && (#[trigger] self.frames@[i]) is Some
                && (#[trigger] self.frames@[j]) is Some ==> self.frames@[i].unwrap().frame_num
                != self.frames@[j].unwrap().frame_num
    }

    /// Fill the pool with three frames from the given allocator.  Slots
    /// stay empty if the source runs dry, and the pool's frames are no
    /// longer issuable by the source.
    pub fn new<A: FrameAllocator>(allocator: &mut A) -> (r: MiniAllocator)
        requires
            old(allocator).inv(),
        ensures
            r.wf(),
            final(allocator).inv(),
            r.issuable().subset_of(old(allocator).issuable()),
            final(allocator).issuable().subset_of(old(allocator).issuable()),
            r.issuable().disjoint(final(allocator).issuable()),
            forall|k: nat|
                at_least(old(allocator).issuable(), (k + 3) as nat)
                    ==> at_least(final(allocator).issuable(), k),
            at_least(old(allocator).issuable(), 3) ==> at_least(r.issuable(), 3),
            // with three frames on offer, all three slots fill with the
            // drawn frames, and exactly those leave the source
            at_least(old(allocator).issuable(), 3) ==> {
                &&& forall|i: int| 0 <= i < r.frames@.len() ==> (#[trigger] r.frames@[i]) is Some
                &&& final(allocator).issuable() == old(allocator).issuable().remove(
                    r.frames@[0].unwrap().frame_num as int).remove(
                    r.frames@[1].unwrap().frame_num as int).remove(
                    r.frames@[2].unwrap().frame_num as int)
                &&& r.issuable() == Set::<int>::empty().insert(
                    r.frames@[0].unwrap().frame_num as int).insert(
                    r.frames@[1].unwrap().frame_num as int).insert(
                    r.frames@[2].unwrap().frame_num as int)
            },
    {
        let ghost iss0 = allocator.issuable();
        let a = allocator.allocate_frame();
        let ghost iss1 = allocator.issuable();
        let b = allocator.allocate_frame();
        let ghost iss2 = allocator.issuable();
        let c = allocator.allocate_frame();
        let mut frames: Vec<Option<Frame>> = Vec::new();
        frames.push(a);
        frames.push(b);
        frames.push(c);
        let r = MiniAllocator { frames };
        proof {
            assert forall|k: nat| at_least(iss0, (k + 3) as nat) implies at_least(
                allocator.issuable(), k) by {
                crate::memory::lemma_at_least_mono(iss0, 3, (k + 3) as nat);
                if a is None {
                    crate::memory::lemma_at_least_mono(iss0, 1, 3);
                    crate::memory::lemma_at_least_one_nonempty(iss0);
                } else if b is None {
                    crate::memory::lemma_at_least_remove(iss0, a.unwrap().frame_num as int, 2);
                    crate::memory::lemma_at_least_mono(iss1, 1, 2);
                    crate::memory::lemma_at_least_one_nonempty(iss1);
                } else if c is None {
                    crate::memory::lemma_at_least_remove(iss0, a.unwrap().frame_num as int, 2);
                    crate::memory::lemma_at_least_remove(iss1, b.unwrap().frame_num as int, 1);
                    crate::memory::lemma_at_least_one_nonempty(iss2);
                } else {
                    crate::memory::lemma_at_least_remove(iss0, a.unwrap().frame_num as int,
                        (k + 2) as nat);
                    crate::memory::lemma_at_least_remove(iss1, b.unwrap().frame_num as int,
                        (k + 1) as nat);
                    crate::memory::lemma_at_least_remove(iss2, c.unwrap().frame_num as int, k);
                }
            }
            if at_least(iss0, 3) {
                if a is None {
                    crate::memory::lemma_at_least_mono(iss0, 1, 3);
                    crate::memory::lemma_at_least_one_nonempty(iss0);
                } else if b is None {
                    crate::memory::lemma_at_least_remove(iss0, a.unwrap().frame_num as int, 2);
                    crate::memory::lemma_at_least_mono(iss1, 1, 2);
                    crate::memory::lemma_at_least_one_nonempty(iss1);
                } else if c is None {
                    crate::memory::lemma_at_least_remove(iss0, a.unwrap().frame_num as int, 2);
                    crate::memory::lemma_at_least_remove(iss1, b.unwrap().frame_num as int, 1);
                    crate::memory::lemma_at_least_one_nonempty(iss2);
                } else {
                    let s = Set::<int>::empty().insert(a.unwrap().frame_num as int).insert(
                        b.unwrap().frame_num as int).insert(c.unwrap().frame_num as int);
                    assert(r.frames@[0] == a && r.frames@[1] == b && r.frames@[2] == c);
                    assert forall|n: int| s.contains(n) implies r.issuable().contains(n) by {
                        if n == a.unwrap().frame_num as int {
                            assert(r.frames@[0] == Some(Frame { frame_num: n as u64 }));
                        } else if n == b.unwrap().frame_num as int {
                            assert(r.frames@[1] == Some(Frame { frame_num: n as u64 }));
                        } else {
                            assert(r.frames@[2] == Some(Frame { frame_num: n as u64 }));
                        }
                    }
                    assert(s.finite() && s.subset_of(r.issuable()) && s.len() == 3);
                    assert forall|n: int| r.issuable().contains(n) implies s.contains(n) by {
                        let i = choose|i: int|
                            0 <= i < r.frames@.len() && (#[trigger] r.frames@[i]) == Some(Frame {
                                frame_num: n as u64 }) && 0 <= n < FRAME_LIMIT;
                    }
                    assert(r.issuable() =~= s);
                    assert(allocator.issuable() =~= iss0.remove(a.unwrap().frame_num
                        as int).remove(b.unwrap().frame_num as int).remove(c.unwrap().frame_num
                        as int));
                }
            }
        }
        r
    }
}

impl FrameAllocator for MiniAllocator {
    open spec fn inv(&self) -> bool {
        self.wf()
    }

    open spec fn issuable(&self) -> Set<int> {
        Set::new(|n: int| exists|i: int|
            0 <= i < self.frames@.len() && (#[trigger] self.frames@[i]) == Some(Frame {
                frame_num: n as u64 }) && 0 <= n < FRAME_LIMIT)
    }

    /// Take the first filled slot.
    fn allocate_frame(&mut self) -> (r: Option<Frame>)
        ensures
            match r {
                Some(f) => {
                    &&& old(self).issuable().contains(f.frame_num as int)
                    &&& final(self).issuable() == old(self).issuable().remove(f.frame_num as int)
                    &&& f.frame_num < FRAME_LIMIT
                },
                None => {
                    &&& final(self).issuable() == old(self).issuable()
                    &&& old(self).issuable() == Set::<int>::empty()
                },
            },
    {
        let n = self.frames.len();
        let mut k: usize = 0;
        while k < n
            invariant
                self == old(self),
                self.wf(),
                n == self.frames@.len(),
                k <= n,
                forall|i: int| 0 <= i < k ==> (#[trigger] self.frames@[i]) is None,
            decreases n - k,
        {
            match self.frames[k] {
                Some(f) => {
                    let ghost pre = *self;
                    self.frames[k] = None;
                    proof {
                        assert forall|m: int| self.issuable().contains(m) implies
                            pre.issuable().contains(m) && m != f.frame_num as int by {
                            let i = choose|i: int|
                                0 <= i < self.frames@.len() && (#[trigger] self.frames@[i])
                                    == Some(Frame { frame_num: m as u64 }) && 0 <= m < FRAME_LIMIT;
                            assert(i != k);
                            assert(pre.frames@[i] == Some(Frame { frame_num: m as u64 }));
                            assert(pre.frames@[k as int] == Some(f));
                        }
                        assert forall|m: int|
                            pre.issuable().contains(m) && m != f.frame_num as int implies
                            self.issuable().contains(m) by {
                            let i = choose|i: int|
                                0 <= i < pre.frames@.len() && (#[trigger] pre.frames@[i])
                                    == Some(Frame { frame_num: m as u64 }) && 0 <= m < FRAME_LIMIT;
                            assert(i != k);
                            assert(self.frames@[i] == Some(Frame { frame_num: m as u64 }));
                        }
                        assert(pre.issuable().contains(f.frame_num as int)) by {
                            assert(pre.frames@[k as int] == Some(Frame {
                                frame_num: f.frame_num }));
                        }
                        assert(self.issuable() =~= pre.issuable().remove(f.frame_num as int));
                    }
                    return Some(f);
                },
                None => {},
            }
            k = k + 1;
        }
        proof {
            assert forall|m: int| !self.issuable().contains(m) by {
                if self.issuable().contains(m) {
                    let i = choose|i: int|
                        0 <= i < self.frames@.len() && (#[trigger] self.frames@[i]) == Some(Frame {
                            frame_num: m as u64 }) && 0 <= m < FRAME_LIMIT;
                }
            }
            assert(self.issuable() =~= Set::<int>::empty());
        }
        None
    }

    /// Put a frame back into the first empty slot; a frame the pool
    /// already holds, or a fourth frame, is dropped.
    fn deallocate_frame(&mut self, frame: Frame)
        ensures
            final(self).issuable().subset_of(old(self).issuable().insert(frame.frame_num as int)),
            frame.frame_num < FRAME_LIMIT && !old(self).issuable().contains(frame.frame_num
                as int) && (exists|i: int|
                0 <= i < old(self).frames@.len() && (#[trigger] old(self).frames@[i]) is None)
                ==> final(self).issuable() == old(self).issuable().insert(frame.frame_num as int),
            old(self).issuable().contains(frame.frame_num as int) ==> *final(self) == *old(self),
            frame.frame_num >= FRAME_LIMIT ==> *final(self) == *old(self),
            !(exists|i: int|
                0 <= i < old(self).frames@.len() && (#[trigger] old(self).frames@[i]) is None)
                ==> *final(self) == *old(self),
    {
        if frame.frame_num >= FRAME_LIMIT {
            return;
        }
        let n = self.frames.len();
        let mut k: usize = 0;
        let mut already: bool = false;
        while k < n
            invariant
                self == old(self),
                n == self.frames@.len(),
                k <= n,
                already == exists|i: int|
                    0 <= i < k && (#[trigger] self.frames@[i]) == Some(frame),
            decreases n - k,
        {
            match self.frames[k] {
                Some(f) => {
                    if f.frame_num == frame.frame_num {
                        proof {
                            assert(f == frame);
                            assert(self.frames@[k as int] == Some(frame));
                        }
                        already = true;
                    }
                },
                None => {},
            }
            k = k + 1;
        }
        if already {
            proof {
                let i = choose|i: int|
                    0 <= i < n && (#[trigger] self.frames@[i]) == Some(frame);
                assert(old(self).issuable().contains(frame.frame_num as int));
            }
            return;
        }
        proof {
            let m = frame.frame_num as int;
            assert(!old(self).issuable().contains(m)) by {
                if old(self).issuable().contains(m) {
                    let i = choose|i: int|
                        0 <= i < old(self).frames@.len() && (#[trigger] old(self).frames@[i])
                            == Some(Frame { frame_num: m as u64 }) && 0 <= m < FRAME_LIMIT;
                    assert(old(self).frames@[i] == Some(frame));
                }
            }
        }
        let mut j: usize = 0;
        while j < n
            invariant
                self == old(self),
                self.wf(),
                n == self.frames@.len(),
                j <= n,
                frame.frame_num < FRAME_LIMIT,
                forall|i: int|
                    0 <= i < self.frames@.len() ==> (#[trigger] self.frames@[i]) != Some(frame),
                forall|i: int| 0 <= i < j ==> (#[trigger] self.frames@[i]) is Some,
            decreases n - j,
        {
            if self.frames[j].is_none() {
                let ghost pre = *self;
                self.frames[j] = Some(frame);
                proof {
                    assert forall|m: int| self.issuable().contains(m) implies
                        pre.issuable().insert(frame.frame_num as int).contains(m) by {
                        let i = choose|i: int|
                            0 <= i < self.frames@.len() && (#[trigger] self.frames@[i])
                                == Some(Frame { frame_num: m as u64 }) && 0 <= m < FRAME_LIMIT;
                        if i != j {
                            assert(pre.frames@[i] == Some(Frame { frame_num: m as u64 }));
                        }
                    }
                    assert forall|m: int|
                        pre.issuable().insert(frame.frame_num as int).contains(m) implies
                        self.issuable().contains(m) by {
                        if m == frame.frame_num as int {
                            assert(self.frames@[j as int] == Some(Frame { frame_num: m as u64 }));
                        } else {
                            let i = choose|i: int|
                                0 <= i < pre.frames@.len() && (#[trigger] pre.frames@[i])
                                    == Some(Frame { frame_num: m as u64 }) && 0 <= m < FRAME_LIMIT;
                            assert(i != j);
                            assert(self.frames@[i] == Some(Frame { frame_num: m as u64 }));
                        }
                    }
                    assert(self.issuable() =~= pre.issuable().insert(frame.frame_num as int));
                }
                return;
            }
            j = j + 1;
        }
        proof {
            assert forall|i: int| 0 <= i < old(self).frames@.len() implies !((
            #[trigger] old(self).frames@[i]) is None) by {
                assert(self.frames@[i] is Some);
            }
        }
    }
}

/// A page reserved at a fixed, otherwise-unused page number, with its
/// private three-frame pool: the way to gain a transient mapping to a
/// frame that has no permanent virtual address yet.
pub struct TempPage {
    pub page: Page,
    pub allocator: MiniAllocator,
}

impl TempPage {
    /// The reserved page is mappable and the pool is sound.
    pub open spec fn wf(self) -> bool {
        self.page.mappable() && self.allocator.wf()
    }

    /// Reserve `page` and pull the three pool frames from `allocator`.
    pub fn new<A: FrameAllocator>(page: Page, allocator: &mut A) -> (r: TempPage)
        requires
            page.mappable(),
            old(allocator).inv(),
        ensures
            r.wf(),
            r.page == page,
            final(allocator).inv(),
            r.allocator.issuable().subset_of(old(allocator).issuable()),
            final(allocator).issuable().subset_of(old(allocator).issuable()),
            r.allocator.issuable().disjoint(final(allocator).issuable()),
            forall|k: nat|
                at_least(old(allocator).issuable(), (k + 3) as nat)
                    ==> at_least(final(allocator).issuable(), k),
            at_least(old(allocator).issuable(), 3) ==> at_least(r.allocator.issuable(), 3),
            at_least(old(allocator).issuable(), 3) ==> {
                &&& forall|i: int|
                    0 <= i < r.allocator.frames@.len() ==> (#[trigger] r.allocator.frames@[i])
                        is Some
                &&& final(allocator).issuable() == old(allocator).issuable().remove(
                    r.allocator.frames@[0].unwrap().frame_num as int).remove(
                    r.allocator.frames@[1].unwrap().frame_num as int).remove(
                    r.allocator.frames@[2].unwrap().frame_num as int)
                &&& r.allocator.issuable() == Set::<int>::empty().insert(
                    r.allocator.frames@[0].unwrap().frame_num as int).insert(
                    r.allocator.frames@[1].unwrap().frame_num as int).insert(
                    r.allocator.frames@[2].unwrap().frame_num as int)
            },
    {
        TempPage { page, allocator: MiniAllocator::new(allocator) }
    }

    /// Map the reserved page to `frame` in the active hierarchy, using
    /// the private pool for any missing intermediate tables, and return
    /// the page's virtual address: through it the frame's contents can
    /// now be reached.
    pub fn map_to_frame(&mut self, frame: Frame, active_table: &mut ActivePageTable)
        -> (addr: VirtualAddress)
        requires
            old(self).wf(),
            old(active_table).wf(),
            frame.frame_num < FRAME_LIMIT,
            old(active_table).mapper.path_clear(old(self).page),
            frames_fresh(old(self).allocator.issuable(), old(active_table).mapper.mem@),
            at_least(old(self).allocator.issuable(), old(active_table).mapper.tables_needed(old(
                self).page)),
        ensures
            addr == old(self).page.page_num * PAGE_SIZE,
            final(self).page == old(self).page,
            final(self).wf(),
            map_to_effect(old(active_table).mapper, final(active_table).mapper, old(self).page,
                frame, (EntryFlags { bits: WRITABLE })),
            final(self).allocator.issuable().subset_of(old(self).allocator.issuable()),
            frames_fresh(final(self).allocator.issuable(), final(active_table).mapper.mem@),
            forall|n: int|
                #[trigger] final(active_table).mapper.mem@.contains_key(n)
                    ==> old(active_table).mapper.mem@.contains_key(n)
                    || old(self).allocator.issuable().contains(n),
    {
        proof {
            crate::entry::lemma_flag_algebra(0, 0);
        }
        let page = self.page;
        active_table.mapper.map_page_to_frame(page, frame, EntryFlags { bits: WRITABLE },
            &mut self.allocator);
        page.starting_address()
    }

    /// Remove the transient mapping again.
    pub fn unmap(&mut self, active_table: &mut ActivePageTable)
        requires
            old(self).wf(),
            old(active_table).wf(),
            old(active_table).mapper.leaf_entry(old(self).page) is Some,
            entry_present(old(active_table).mapper.leaf_entry(old(self).page).unwrap()),
        ensures
            *final(self) == *old(self),
            unmap_effect(old(active_table).mapper, final(active_table).mapper, old(self).page),
    {
        let page = self.page;
        active_table.mapper.unmap(page, &mut self.allocator);
    }
}

} // verus!
