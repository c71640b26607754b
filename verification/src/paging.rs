//! Virtual pages and the active/inactive root-table lifecycle.

use vstd::prelude::*;
use crate::PAGE_SIZE;
use crate::entry::{entry_frame, entry_present, EntryFlags, PageEntry, PRESENT, WRITABLE};
use crate::memory::{at_least, Frame, FrameAllocator, FRAME_LIMIT};
use crate::pt_mapper::{
    frames_fresh, leaf_entry_at, lemma_encode_fields, lemma_path_clear_trivial,
    lemma_mem_wf_after_insert_root, lemma_mem_wf_after_recursive_write, lemma_page_index_bounds,
    lemma_path_levels, lemma_walk_after_fresh_insert, lemma_walk_after_write, pristine_root_entries,
    translate_page_at, walk_reads, write_map, PTMapper,
};
use crate::boot::{BootData, KernelSection};
use crate::vga_interface::VGA_BUFFER_START;
use crate::entry::encode_entry;
use crate::table::{Table, TableInfo, TableStore};
use crate::temp_page::TempPage;

verus! {

/// A physical address, in bytes.
pub type PhysicalAddress = u64;

/// A virtual address, in bytes.
pub type VirtualAddress = u64;

/// Page numbers stay below this bound: the canonical virtual address
/// space has 48 bits, 36 of them naming the page.
pub const PAGE_LIMIT: u64 = 0x10_0000_0000;

/// One more than the largest canonical virtual address.
pub const VIRT_SPACE: u64 = PAGE_LIMIT * PAGE_SIZE;

/// Page number of the throwaway page the temporary-mapping machinery
/// uses: a fixed, otherwise-unused spot in the address space.
pub const MAGIC_PAGE_NUMBER: u64 = 0xDEADBEEF;

/// Table index of the recursive self-mapping slot in the root table.
pub const RECURSIVE_INDEX: usize = 511;

/// One virtual page, identified by its index in the 48-bit canonical
/// address space.
#[derive(Debug, Clone, Copy, PartialEq, Eq, Structural)]
pub struct Page {
    pub page_num: u64,
}

impl Page {
    /// Index into the root table (bits 39..=47 of the address).
    pub open spec fn l4_index(self) -> int {
        ((self.page_num >> 27u64) & 0x1FFu64) as int
    }

    /// Index into the pointer table (bits 30..=38 of the address).
    pub open spec fn l3_index(self) -> int {
        ((self.page_num >> 18u64) & 0x1FFu64) as int
    }

    /// Index into the page directory (bits 21..=29 of the address).
    pub open spec fn l2_index(self) -> int {
        ((self.page_num >> 9u64) & 0x1FFu64) as int
    }

    /// Index into the leaf table (bits 12..=20 of the address).
    pub open spec fn l1_index(self) -> int {
        (self.page_num & 0x1FFu64) as int
    }

    /// A page the mapper may operate on: inside the 48-bit space and off
    /// the region that the recursive slot reserves.
    pub open spec fn mappable(self) -> bool {
        self.page_num < PAGE_LIMIT && self.l4_index() != RECURSIVE_INDEX
    }

    /// First virtual address of the page.
    pub fn starting_address(&self) -> (a: VirtualAddress)
        requires
            self.page_num < PAGE_LIMIT,
        ensures
            a == self.page_num * PAGE_SIZE,
    {
        self.page_num * PAGE_SIZE
    }

    /// The page that holds the given virtual address.
    pub fn containing_address(addr: VirtualAddress) -> (p: Page)
        ensures
            p.page_num == addr / PAGE_SIZE,
    {
        Page { page_num: addr / PAGE_SIZE }
    }

    /// Index of this page's slot in the root table.
    pub fn page_map_index(&self) -> (i: usize)
        ensures
            i == self.l4_index(),
            i < 512,
    {
        proof {
            crate::pt_mapper::lemma_page_index_bounds(*self);
        }
        ((self.page_num >> 27u64) & 0x1FF) as usize
    }

    /// Index of this page's slot in the pointer table.
    pub fn pointer_table_index(&self) -> (i: usize)
        ensures
            i == self.l3_index(),
            i < 512,
    {
        proof {
            crate::pt_mapper::lemma_page_index_bounds(*self);
        }
        ((self.page_num >> 18u64) & 0x1FF) as usize
    }

    /// Index of this page's slot in the page directory.
    pub fn page_dir_index(&self) -> (i: usize)
        ensures
            i == self.l2_index(),
            i < 512,
    {
        proof {
            crate::pt_mapper::lemma_page_index_bounds(*self);
        }
        ((self.page_num >> 9u64) & 0x1FF) as usize
    }

    /// Index of this page's slot in the leaf table.
    pub fn page_table_index(&self) -> (i: usize)
        ensures
            i == self.l1_index(),
            i < 512,
    {
        proof {
            crate::pt_mapper::lemma_page_index_bounds(*self);
        }
        (self.page_num & 0x1FF) as usize
    }
}

/// The hierarchy currently installed in the root-pointer register.
/// There is one of these at a time; it owns the whole machine model.
pub struct ActivePageTable {
    pub mapper: PTMapper,
}

/// A root table living in memory but not installed: nothing is known of
/// it beyond its frame.
pub struct InactivePageTable {
    pub page_map_frame: Frame,
}

impl InactivePageTable {
    /// The frame holds a root table whose recursive slot points back at
    /// itself, so it can be walked once it is reachable.
    pub open spec fn valid(self, m: Map<int, TableInfo>) -> bool {
        let f = self.page_map_frame.frame_num as int;
        &&& self.page_map_frame.frame_num < FRAME_LIMIT
        &&& m.contains_key(f)
        &&& m[f].level == 4
        &&& entry_present(m[f].entries[511])
        &&& entry_frame(m[f].entries[511]) == f
    }

    /// Turn a freshly allocated frame into an inactive root table: gain
    /// a transient mapping to it through the temporary page, clear it,
    /// link its recursive slot to itself, and drop the transient mapping
    /// again.
    pub fn new(frame: Frame, active_table: &mut ActivePageTable, temp_page: &mut TempPage)
        -> (r: InactivePageTable)
        requires
            old(active_table).wf(),
            old(temp_page).wf(),
            frame.frame_num < FRAME_LIMIT,
            !old(active_table).mapper.mem@.contains_key(frame.frame_num as int),
            !old(temp_page).allocator.issuable().contains(frame.frame_num as int),
            old(active_table).mapper.path_clear(old(temp_page).page),
            frames_fresh(old(temp_page).allocator.issuable(), old(active_table).mapper.mem@),
            at_least(old(temp_page).allocator.issuable(), old(
                active_table).mapper.tables_needed(old(temp_page).page)),
        ensures
            r.page_map_frame == frame,
            final(active_table).wf(),
            r.valid(final(active_table).mapper.mem@),
            final(active_table).mapper.cr3 == old(active_table).mapper.cr3,
            final(active_table).mapper.root() == old(active_table).mapper.root(),
            old(active_table).mapper.mem@.dom().subset_of(final(active_table).mapper.mem@.dom()),
            // the new root's hierarchy is empty
            forall|q: Page|
                q.page_num < PAGE_LIMIT && q.l4_index() != 511
                    ==> #[trigger] translate_page_at(final(active_table).mapper.mem@,
                    frame.frame_num as int, q) is None
                    && #[trigger] leaf_entry_at(final(active_table).mapper.mem@,
                    frame.frame_num as int, q) is None,
            // the active hierarchy is as before, with the transient
            // mapping gone again
            forall|q: Page|
                q.page_num < PAGE_LIMIT && q.l4_index() != 511
                    && q.page_num != old(temp_page).page.page_num
                    ==> #[trigger] translate_page_at(final(active_table).mapper.mem@, old(
                    active_table).mapper.root(), q) == translate_page_at(old(
                    active_table).mapper.mem@, old(active_table).mapper.root(), q),
            forall|q: Page|
                q.page_num < PAGE_LIMIT && q.l4_index() != 511
                    && q.page_num != old(temp_page).page.page_num
                    && (#[trigger] leaf_entry_at(old(active_table).mapper.mem@, old(
                    active_table).mapper.root(), q)) is Some
                    ==> leaf_entry_at(final(active_table).mapper.mem@, old(
                    active_table).mapper.root(), q) == leaf_entry_at(old(
                    active_table).mapper.mem@, old(active_table).mapper.root(), q),
            translate_page_at(final(active_table).mapper.mem@, old(active_table).mapper.root(),
                old(temp_page).page) is None,
            leaf_entry_at(final(active_table).mapper.mem@, old(active_table).mapper.root(), old(
                temp_page).page) is Some,
            // every old root keeps its recursive slot
            forall|f: int|
                old(active_table).mapper.mem@.contains_key(f)
                    && old(active_table).mapper.mem@[f].level == 4
                    ==> final(active_table).mapper.mem@.contains_key(f)
                    && (#[trigger] final(active_table).mapper.mem@[f]).level == 4
                    && final(active_table).mapper.mem@[f].entries[511]
                    == old(active_table).mapper.mem@[f].entries[511],
            forall|n: int|
                #[trigger] final(active_table).mapper.mem@.contains_key(n)
                    ==> old(active_table).mapper.mem@.contains_key(n)
                    || old(temp_page).allocator.issuable().contains(n)
                    || n == frame.frame_num as int,
            final(temp_page).page == old(temp_page).page,
            final(temp_page).wf(),
            final(temp_page).allocator.issuable().subset_of(old(temp_page).allocator.issuable()),
            frames_fresh(final(temp_page).allocator.issuable(), final(active_table).mapper.mem@),
    {
        let ghost m0 = active_table.mapper.mem@;
        let ghost rt = active_table.mapper.root();
        let ghost tpage = temp_page.page;
        let ghost ff = frame.frame_num as int;
        temp_page.map_to_frame(frame, active_table);
        let ghost m1 = active_table.mapper.mem@;

        proof {
            crate::entry::lemma_flag_algebra(0, 0);
        }
        let mut table = Table::empty();
        let mut e = PageEntry(0);
        e.set(frame, EntryFlags { bits: PRESENT | WRITABLE });
        let ghost t0 = table;
        table.entries[RECURSIVE_INDEX] = e;
        proof {
            assert forall|i: int| 0 <= i < 512 implies #[trigger] table@[i]
                == pristine_root_entries(ff)[i] by {
                assert(table.entries@ == t0.entries@.update(511, e));
                assert(table@[i] == table.entries@[i].0);
                if i != 511 {
                    assert(table.entries@[i] == t0.entries@[i]);
                    assert(t0@[i] == t0.entries@[i].0);
                    assert(t0@[i] == 0u64);
                }
            }
            assert(table@ =~= pristine_root_entries(ff));
            assert(!m1.contains_key(ff));
            lemma_mem_wf_after_insert_root(m1, ff);
        }
        active_table.mapper.mem.insert_table(frame.frame_num, Ghost(4int), table);
        let ghost m2 = active_table.mapper.mem@;
        proof {
            let info = TableInfo { level: 4, entries: pristine_root_entries(ff) };
            assert(m2 =~= m1.insert(ff, info));
            assert(active_table.mapper.root() == rt);
            assert(active_table.mapper.wf());
            assert forall|rr: int, q: Page|
                m1.contains_key(rr) && m1[rr].level == 4 && q.page_num < PAGE_LIMIT
                    && q.l4_index() != 511 implies #[trigger] translate_page_at(m2, rr, q)
                    == translate_page_at(m1, rr, q) && #[trigger] leaf_entry_at(m2, rr, q)
                    == leaf_entry_at(m1, rr, q) by {
                lemma_walk_after_fresh_insert(m1, ff, info, rr, q);
            }
            assert(translate_page_at(m2, rt, tpage) == translate_page_at(m1, rt, tpage)
                && leaf_entry_at(m2, rt, tpage) == leaf_entry_at(m1, rt, tpage));
            assert(entry_present(leaf_entry_at(m1, rt, tpage).unwrap())) by {
                crate::entry::lemma_flag_algebra(WRITABLE, PRESENT);
                lemma_encode_fields(frame.frame_num, WRITABLE | PRESENT);
            }
        }
        temp_page.unmap(active_table);
        proof {
            let m3 = active_table.mapper.mem@;
            assert forall|q: Page|
                q.page_num < PAGE_LIMIT && q.l4_index() != 511 implies #[trigger]
                translate_page_at(m3, ff, q) is None && #[trigger] leaf_entry_at(m3, ff, q)
                is None by {
                assert(m2.contains_key(ff) && m2[ff].level == 4);
                assert(translate_page_at(m3, ff, q) == translate_page_at(m2, ff, q)
                    && leaf_entry_at(m3, ff, q) == leaf_entry_at(m2, ff, q));
            }
            assert forall|q: Page|
                q.page_num < PAGE_LIMIT && q.l4_index() != 511
                    && q.page_num != tpage.page_num implies #[trigger] translate_page_at(m3, rt,
                q) == translate_page_at(m0, rt, q) by {
                assert(translate_page_at(m3, rt, q) == translate_page_at(m2, rt, q)
                    && leaf_entry_at(m3, rt, q) == leaf_entry_at(m2, rt, q));
                assert(translate_page_at(m2, rt, q) == translate_page_at(m1, rt, q)
                    && leaf_entry_at(m2, rt, q) == leaf_entry_at(m1, rt, q));
                assert(translate_page_at(m1, rt, q) == translate_page_at(m0, rt, q));
            }
            assert forall|q: Page|
                q.page_num < PAGE_LIMIT && q.l4_index() != 511
                    && q.page_num != tpage.page_num
                    && (#[trigger] leaf_entry_at(m0, rt, q)) is Some implies leaf_entry_at(m3,
                rt, q) == leaf_entry_at(m0, rt, q) by {
                assert(translate_page_at(m1, rt, q) == translate_page_at(m0, rt, q));
                assert(translate_page_at(m2, rt, q) == translate_page_at(m1, rt, q)
                    && leaf_entry_at(m2, rt, q) == leaf_entry_at(m1, rt, q));
                assert(translate_page_at(m3, rt, q) == translate_page_at(m2, rt, q)
                    && leaf_entry_at(m3, rt, q) == leaf_entry_at(m2, rt, q));
            }
        }
        InactivePageTable { page_map_frame: frame }
    }
}

impl ActivePageTable {
    /// The machine model is sound.
    pub open spec fn wf(self) -> bool {
        self.mapper.wf()
    }

    /// A minimal active hierarchy, as the boot loader leaves it: one
    /// root table at `root_frame`, empty except for its recursive slot,
    /// installed in the register.
    pub fn new(root_frame: Frame) -> (r: ActivePageTable)
        requires
            root_frame.frame_num < FRAME_LIMIT,
        ensures
            r.wf(),
            r.mapper.normal(),
            r.mapper.cr3 == root_frame,
            r.mapper.mem@.dom() == Set::<int>::empty().insert(root_frame.frame_num as int),
            forall|q: Page|
                q.l4_index() != 511 ==> #[trigger] r.mapper.translate_page(q) is None
                    && r.mapper.l1_table(q) is None && r.mapper.leaf_entry(q) is None,
    {
        proof {
            crate::entry::lemma_flag_algebra(0, 0);
        }
        let mut table = Table::empty();
        let mut e = PageEntry(0);
        e.set(root_frame, EntryFlags { bits: PRESENT | WRITABLE });
        let ghost t0 = table;
        table.entries[RECURSIVE_INDEX] = e;
        let ghost rf = root_frame.frame_num as int;
        proof {
            assert forall|i: int| 0 <= i < 512 implies #[trigger] table@[i]
                == pristine_root_entries(rf)[i] by {
                assert(table.entries@ == t0.entries@.update(511, e));
                assert(table@[i] == table.entries@[i].0);
                if i != 511 {
                    assert(table.entries@[i] == t0.entries@[i]);
                    assert(t0@[i] == t0.entries@[i].0);
                    assert(t0@[i] == 0u64);
                }
            }
            assert(table@ =~= pristine_root_entries(rf));
        }
        let mut mem = TableStore::new();
        proof {
            lemma_mem_wf_after_insert_root(mem@, rf);
        }
        mem.insert_table(root_frame.frame_num, Ghost(4int), table);
        let mapper = PTMapper { mem, cr3: root_frame };
        proof {
            assert(mapper.mem@ =~= Map::<int, TableInfo>::empty().insert(rf, (TableInfo {
                level: 4, entries: pristine_root_entries(rf) })));
            assert(mapper.mem@.dom() =~= Set::<int>::empty().insert(rf));
            assert(mapper.root() == rf);
            assert(mapper.wf());
        }
        ActivePageTable { mapper }
    }

    /// Begin mutating an inactive hierarchy: map the temporary page to
    /// the register-named table as a restore window, then point that
    /// table's recursive slot at the inactive root, so that from here on
    /// the mapper's recursive addressing reaches the inactive hierarchy.
    /// On hardware the lookup cache is flushed at this point; the model
    /// reads current entries always, so the flush has no observable
    /// effect here.
    pub fn start_editing(&mut self, table: &InactivePageTable, temp_page: &mut TempPage)
        requires
            old(self).wf(),
            old(self).mapper.normal(),
            table.valid(old(self).mapper.mem@),
            table.page_map_frame.frame_num != old(self).mapper.cr3.frame_num,
            old(temp_page).wf(),
            old(self).mapper.path_clear(old(temp_page).page),
            frames_fresh(old(temp_page).allocator.issuable(), old(self).mapper.mem@),
            at_least(old(temp_page).allocator.issuable(), old(self).mapper.tables_needed(old(
                temp_page).page)),
        ensures
            final(self).wf(),
            final(self).mapper.cr3 == old(self).mapper.cr3,
            final(self).mapper.root() == table.page_map_frame.frame_num as int,
            old(self).mapper.mem@.dom().subset_of(final(self).mapper.mem@.dom()),
            // the hierarchy now being edited is exactly as it was
            forall|q: Page|
                q.page_num < PAGE_LIMIT && q.l4_index() != 511
                    ==> #[trigger] translate_page_at(final(self).mapper.mem@,
                    table.page_map_frame.frame_num as int, q) == translate_page_at(old(
                    self).mapper.mem@, table.page_map_frame.frame_num as int, q),
            forall|q: Page|
                q.page_num < PAGE_LIMIT && q.l4_index() != 511
                    && (#[trigger] leaf_entry_at(old(self).mapper.mem@,
                    table.page_map_frame.frame_num as int, q)) is Some
                    ==> leaf_entry_at(final(self).mapper.mem@,
                    table.page_map_frame.frame_num as int, q) == leaf_entry_at(old(
                    self).mapper.mem@, table.page_map_frame.frame_num as int, q),
            // the restore window is in place
            leaf_entry_at(final(self).mapper.mem@, old(self).mapper.cr3.frame_num as int, old(
                temp_page).page) is Some,
            entry_present(leaf_entry_at(final(self).mapper.mem@,
                old(self).mapper.cr3.frame_num as int, old(temp_page).page).unwrap()),
            // the previously active hierarchy only gained that window
            forall|q: Page|
                q.page_num < PAGE_LIMIT && q.l4_index() != 511
                    && q.page_num != old(temp_page).page.page_num
                    ==> #[trigger] translate_page_at(final(self).mapper.mem@,
                    old(self).mapper.cr3.frame_num as int, q) == translate_page_at(old(
                    self).mapper.mem@, old(self).mapper.cr3.frame_num as int, q),
            forall|q: Page|
                q.page_num < PAGE_LIMIT && q.l4_index() != 511
                    && q.page_num != old(temp_page).page.page_num
                    && (#[trigger] leaf_entry_at(old(self).mapper.mem@,
                    old(self).mapper.cr3.frame_num as int, q)) is Some
                    ==> leaf_entry_at(final(self).mapper.mem@,
                    old(self).mapper.cr3.frame_num as int, q) == leaf_entry_at(old(
                    self).mapper.mem@, old(self).mapper.cr3.frame_num as int, q),
            // every root but the register table keeps its recursive slot
            forall|f: int|
                old(self).mapper.mem@.contains_key(f) && old(self).mapper.mem@[f].level == 4
                    && f != old(self).mapper.cr3.frame_num as int
                    ==> final(self).mapper.mem@.contains_key(f)
                    && (#[trigger] final(self).mapper.mem@[f]).level == 4
                    && final(self).mapper.mem@[f].entries[511]
                    == old(self).mapper.mem@[f].entries[511],
            forall|n: int|
                #[trigger] final(self).mapper.mem@.contains_key(n)
                    ==> old(self).mapper.mem@.contains_key(n)
                    || old(temp_page).allocator.issuable().contains(n),
            final(temp_page).page == old(temp_page).page,
            final(temp_page).wf(),
            final(temp_page).allocator.issuable().subset_of(old(temp_page).allocator.issuable()),
            frames_fresh(final(temp_page).allocator.issuable(), final(self).mapper.mem@),
    {
        let cr3_frame = self.mapper.cr3;
        let ghost m0 = self.mapper.mem@;
        let ghost cr3f = cr3_frame.frame_num as int;
        let ghost xf = table.page_map_frame.frame_num as int;
        let ghost tpage = temp_page.page;
        temp_page.map_to_frame(cr3_frame, self);
        let ghost m1 = self.mapper.mem@;
        proof {
            crate::entry::lemma_flag_algebra(0, 0);
            assert(m1.contains_key(xf) && m1[xf].level == 4
                && m1[xf].entries[511] == m0[xf].entries[511]);
        }
        let mut e = PageEntry(0);
        e.set(table.page_map_frame, EntryFlags { bits: PRESENT | WRITABLE });
        self.mapper.mem.write_entry(cr3_frame.frame_num, RECURSIVE_INDEX, e);
        proof {
            let m2 = self.mapper.mem@;
            let b = e.0;
            assert(m2 =~= write_map(m1, cr3f, 511, b));
            lemma_mem_wf_after_recursive_write(m1, cr3f, xf);
            lemma_encode_fields(table.page_map_frame.frame_num, PRESENT | WRITABLE);
            crate::entry::lemma_flag_algebra(0, 0);
            assert(self.mapper.root() == xf);
            assert(m2[xf].entries[511] == m1[xf].entries[511]);
            assert(self.mapper.wf());
            assert forall|rr: int, q: Page|
                m1.contains_key(rr) && m1[rr].level == 4 && q.page_num < PAGE_LIMIT
                    && q.l4_index() != 511 implies #[trigger] translate_page_at(m2, rr, q)
                    == translate_page_at(m1, rr, q) && leaf_entry_at(m2, rr, q)
                    == leaf_entry_at(m1, rr, q) by {
                lemma_path_levels(m1, rr, q);
                assert(!walk_reads(m1, rr, q, cr3f, 511));
                lemma_walk_after_write(m1, cr3f, 511, b, rr, q);
            }
            assert forall|q: Page|
                q.page_num < PAGE_LIMIT && q.l4_index() != 511
                    && (#[trigger] leaf_entry_at(m0, xf, q)) is Some implies leaf_entry_at(m2,
                xf, q) == leaf_entry_at(m0, xf, q) by {
                assert(translate_page_at(m1, xf, q) == translate_page_at(m0, xf, q));
                assert(translate_page_at(m2, xf, q) == translate_page_at(m1, xf, q));
            }
            assert forall|q: Page|
                q.page_num < PAGE_LIMIT && q.l4_index() != 511
                    && q.page_num != tpage.page_num
                    && (#[trigger] leaf_entry_at(m0, cr3f, q)) is Some implies leaf_entry_at(m2,
                cr3f, q) == leaf_entry_at(m0, cr3f, q) by {
                assert(translate_page_at(m1, cr3f, q) == translate_page_at(m0, cr3f, q));
                assert(translate_page_at(m2, cr3f, q) == translate_page_at(m1, cr3f, q));
            }
            assert(translate_page_at(m2, cr3f, tpage) == translate_page_at(m1, cr3f, tpage));
            assert(leaf_entry_at(m2, cr3f, tpage) == leaf_entry_at(m1, cr3f, tpage));
            assert(entry_present(leaf_entry_at(m1, cr3f, tpage).unwrap())) by {
                crate::entry::lemma_flag_algebra(WRITABLE, PRESENT);
                lemma_encode_fields(cr3_frame.frame_num, WRITABLE | PRESENT);
            }
        }
    }

    /// End an inactive-table edit: restore the register table's
    /// recursive slot to point back at itself, then drop the restore
    /// window.  The mapper's recursive addressing reaches the active
    /// hierarchy again, and the edited hierarchy is left exactly as the
    /// edit built it.
    pub fn finish_editing(&mut self, temp_page: &mut TempPage)
        requires
            old(self).wf(),
            old(self).mapper.root() != old(self).mapper.cr3.frame_num as int,
            old(temp_page).wf(),
            leaf_entry_at(old(self).mapper.mem@, old(self).mapper.cr3.frame_num as int, old(
                temp_page).page) is Some,
            entry_present(leaf_entry_at(old(self).mapper.mem@,
                old(self).mapper.cr3.frame_num as int, old(temp_page).page).unwrap()),
        ensures
            final(self).wf(),
            final(self).mapper.normal(),
            final(self).mapper.cr3 == old(self).mapper.cr3,
            final(self).mapper.mem@.dom() == old(self).mapper.mem@.dom(),
            // the active hierarchy resumes, minus the restore window
            forall|q: Page|
                q.page_num < PAGE_LIMIT && q.l4_index() != 511
                    && q.page_num != old(temp_page).page.page_num
                    ==> #[trigger] translate_page_at(final(self).mapper.mem@,
                    old(self).mapper.cr3.frame_num as int, q) == translate_page_at(old(
                    self).mapper.mem@, old(self).mapper.cr3.frame_num as int, q),
            forall|q: Page|
                q.page_num < PAGE_LIMIT && q.l4_index() != 511
                    && q.page_num != old(temp_page).page.page_num
                    && (#[trigger] leaf_entry_at(old(self).mapper.mem@,
                    old(self).mapper.cr3.frame_num as int, q)) is Some
                    ==> leaf_entry_at(final(self).mapper.mem@,
                    old(self).mapper.cr3.frame_num as int, q) == leaf_entry_at(old(
                    self).mapper.mem@, old(self).mapper.cr3.frame_num as int, q),
            translate_page_at(final(self).mapper.mem@, old(self).mapper.cr3.frame_num as int, old(
                temp_page).page) is None,
            // the edited hierarchy is untouched
            forall|q: Page|
                q.page_num < PAGE_LIMIT && q.l4_index() != 511
                    ==> #[trigger] translate_page_at(final(self).mapper.mem@,
                    old(self).mapper.root(), q) == translate_page_at(old(self).mapper.mem@, old(
                    self).mapper.root(), q) && #[trigger] leaf_entry_at(final(self).mapper.mem@,
                    old(self).mapper.root(), q) == leaf_entry_at(old(self).mapper.mem@, old(
                    self).mapper.root(), q),
            // every root but the register table keeps its recursive slot
            forall|f: int|
                old(self).mapper.mem@.contains_key(f) && old(self).mapper.mem@[f].level == 4
                    && f != old(self).mapper.cr3.frame_num as int
                    ==> final(self).mapper.mem@.contains_key(f)
                    && (#[trigger] final(self).mapper.mem@[f]).level == 4
                    && final(self).mapper.mem@[f].entries[511]
                    == old(self).mapper.mem@[f].entries[511],
            *final(temp_page) == *old(temp_page),
    {
        let cr3_frame = self.mapper.cr3;
        let ghost m0 = self.mapper.mem@;
        let ghost cr3f = cr3_frame.frame_num as int;
        let ghost xf = old(self).mapper.root();
        let ghost tpage = temp_page.page;
        proof {
            crate::entry::lemma_flag_algebra(0, 0);
        }
        let mut e = PageEntry(0);
        e.set(cr3_frame, EntryFlags { bits: PRESENT | WRITABLE });
        self.mapper.mem.write_entry(cr3_frame.frame_num, RECURSIVE_INDEX, e);
        let ghost m1 = self.mapper.mem@;
        proof {
            let b = e.0;
            assert(m1 =~= write_map(m0, cr3f, 511, b));
            lemma_mem_wf_after_recursive_write(m0, cr3f, cr3f);
            lemma_encode_fields(cr3_frame.frame_num, PRESENT | WRITABLE);
            crate::entry::lemma_flag_algebra(0, 0);
            assert(self.mapper.root() == cr3f);
            assert(self.mapper.wf());
            assert forall|rr: int, q: Page|
                m0.contains_key(rr) && m0[rr].level == 4 && q.page_num < PAGE_LIMIT
                    && q.l4_index() != 511 implies #[trigger] translate_page_at(m1, rr, q)
                    == translate_page_at(m0, rr, q) && #[trigger] leaf_entry_at(m1, rr, q)
                    == leaf_entry_at(m0, rr, q) by {
                lemma_path_levels(m0, rr, q);
                assert(!walk_reads(m0, rr, q, cr3f, 511));
                lemma_walk_after_write(m0, cr3f, 511, b, rr, q);
            }
            assert(translate_page_at(m1, cr3f, tpage) == translate_page_at(m0, cr3f, tpage));
            assert(leaf_entry_at(m1, cr3f, tpage) == leaf_entry_at(m0, cr3f, tpage));
        }
        temp_page.unmap(self);
        proof {
            let m2 = self.mapper.mem@;
            assert forall|q: Page|
                q.page_num < PAGE_LIMIT && q.l4_index() != 511
                    && q.page_num != tpage.page_num implies #[trigger] translate_page_at(m2,
                cr3f, q) == translate_page_at(m0, cr3f, q) by {
                assert(translate_page_at(m2, cr3f, q) == translate_page_at(m1, cr3f, q)
                    && leaf_entry_at(m2, cr3f, q) == leaf_entry_at(m1, cr3f, q));
                assert(translate_page_at(m1, cr3f, q) == translate_page_at(m0, cr3f, q)
                    && leaf_entry_at(m1, cr3f, q) == leaf_entry_at(m0, cr3f, q));
            }
            assert forall|q: Page|
                q.page_num < PAGE_LIMIT && q.l4_index() != 511
                    && q.page_num != tpage.page_num implies #[trigger] leaf_entry_at(m2, cr3f,
                q) == leaf_entry_at(m0, cr3f, q) by {
                assert(translate_page_at(m2, cr3f, q) == translate_page_at(m1, cr3f, q)
                    && leaf_entry_at(m2, cr3f, q) == leaf_entry_at(m1, cr3f, q));
                assert(translate_page_at(m1, cr3f, q) == translate_page_at(m0, cr3f, q)
                    && leaf_entry_at(m1, cr3f, q) == leaf_entry_at(m0, cr3f, q));
            }
            assert forall|q: Page|
                q.page_num < PAGE_LIMIT && q.l4_index() != 511 implies #[trigger]
                translate_page_at(m2, xf, q) == translate_page_at(m0, xf, q) && #[trigger]
                leaf_entry_at(m2, xf, q) == leaf_entry_at(m0, xf, q) by {
                assert(m1.contains_key(xf) && m1[xf].level == 4);
                assert(translate_page_at(m2, xf, q) == translate_page_at(m1, xf, q)
                    && leaf_entry_at(m2, xf, q) == leaf_entry_at(m1, xf, q));
                assert(translate_page_at(m1, xf, q) == translate_page_at(m0, xf, q)
                    && leaf_entry_at(m1, xf, q) == leaf_entry_at(m0, xf, q));
            }
        }
    }

    /// Install an inactive hierarchy in the register and hand back the
    /// one that was active a moment ago, now inactive.  A single
    /// register write: the tables themselves do not move.
    pub fn switch(&mut self, inactive_table: InactivePageTable) -> (r: InactivePageTable)
        requires
            old(self).wf(),
            old(self).mapper.normal(),
            inactive_table.valid(old(self).mapper.mem@),
        ensures
            final(self).wf(),
            final(self).mapper.normal(),
            final(self).mapper.cr3 == inactive_table.page_map_frame,
            final(self).mapper.mem@ == old(self).mapper.mem@,
            r.page_map_frame == old(self).mapper.cr3,
            r.valid(final(self).mapper.mem@),
    {
        let orig_table = InactivePageTable { page_map_frame: self.mapper.cr3 };
        self.mapper.cr3 = inactive_table.page_map_frame;
        proof {
            assert(self.mapper.root() == inactive_table.page_map_frame.frame_num as int);
            assert(self.mapper.wf());
        }
        orig_table
    }
}

/// How many frames the identity mapping of one section spans.
pub open spec fn section_frame_count(s: KernelSection) -> int {
    if s.allocated {
        s.end_frame() - s.start_frame()
    } else {
        0
    }
}

/// Frames spanned by the sections from index `j` on.
pub open spec fn frames_from(ss: Seq<KernelSection>, j: int) -> int
    decreases ss.len() - j,
{
    if j < 0 || j >= ss.len() {
        0
    } else {
        section_frame_count(ss[j]) + frames_from(ss, j + 1)
    }
}

/// Sound sections span a non-negative number of frames.
pub proof fn lemma_frames_from_nonneg(ss: Seq<KernelSection>, j: int)
    requires
        forall|i: int| 0 <= i < ss.len() ==> (#[trigger] ss[i]).wf(),
    ensures
        frames_from(ss, j) >= 0,
    decreases ss.len() - j,
{
    if 0 <= j < ss.len() {
        if ss[j].allocated {
            vstd::arithmetic::div_mod::lemma_div_is_ordered(ss[j].addr as int, ss[j].end(),
                PAGE_SIZE as int);
        }
        lemma_frames_from_nonneg(ss, j + 1);
    }
}

/// Frames the whole re-mapping procedure can need from the allocator:
/// three for the temporary page's pool, one for the new root, and up to
/// three intermediate tables for every page it identity-maps.
pub open spec fn remap_frames_budget(info: BootData) -> int {
    4 + 3 * (frames_from(info.sections@, 0) + 1 + (info.boot_end_frame()
        - info.boot_start_frame()))
}

/// Identity pages stay clear of the recursive region.
pub proof fn lemma_identity_page_mappable(n: u64)
    requires
        n < 0xFF80_0000_0000u64 / PAGE_SIZE,
    ensures
        (Page { page_num: n }).mappable(),
{
    assert(n < 0xFF8000000u64 ==> (n >> 27u64) & 0x1FFu64 != 511u64) by (bit_vector);
}

/// The flag bits the procedure stores are well-formed flag sets that
/// always carry the present bit.
pub proof fn lemma_covered_flags_wf(info: BootData, n: int)
    ensures
        info.covered_flags(n) & crate::entry::ALL_FLAGS == info.covered_flags(n),
        info.covered_flags(n) & PRESENT == PRESENT,
{
    crate::entry::lemma_flag_algebra(0, 0);
    crate::entry::lemma_flag_algebra(WRITABLE, PRESENT);
    if !info.boot_covers(n) && n != crate::boot::VGA_BUFFER_FRAME {
        let j = choose|j: int|
            0 <= j < info.sections@.len() && (#[trigger] info.sections@[j]).covers_frame(n);
        let a: u64 = if info.sections@[j].writable {
            WRITABLE
        } else {
            0
        };
        let b: u64 = if info.sections@[j].executable {
            0
        } else {
            crate::entry::NO_EXEC
        };
        crate::entry::lemma_flag_algebra(a, b);
    }
}

/// Re-map the kernel under a fresh, minimal hierarchy: allocate a root
/// frame, build an inactive table over it, identity-map every allocated
/// kernel section with flags derived from its attributes, the
/// diagnostic buffer writable and the boot information block read-only,
/// switch to the new hierarchy, and finally unmap the old root's
/// identity page so that any stale reference to it faults instead of
/// silently working.
#[verifier::loop_isolation(false)]
#[verifier::rlimit(100)]
pub fn remap_kernel<A: FrameAllocator>(active_table: &mut ActivePageTable, allocator: &mut A,
    boot_info: &BootData)
    requires
        old(active_table).wf(),
        old(active_table).mapper.normal(),
        boot_info.wf(),
        old(allocator).inv(),
        frames_fresh(old(allocator).issuable(), old(active_table).mapper.mem@),
        at_least(old(allocator).issuable(), remap_frames_budget(*boot_info) as nat),
        old(active_table).mapper.path_clear((Page { page_num: MAGIC_PAGE_NUMBER })),
        boot_info.covered(old(active_table).mapper.cr3.frame_num as int),
    ensures
        final(active_table).wf(),
        final(active_table).mapper.normal(),
        old(allocator).issuable().contains(final(active_table).mapper.cr3.frame_num as int),
        final(active_table).mapper.cr3.frame_num != old(active_table).mapper.cr3.frame_num,
        final(allocator).inv(),
        final(allocator).issuable().subset_of(old(allocator).issuable()),
        final(active_table).mapper.translate_page((Page {
            page_num: old(active_table).mapper.cr3.frame_num })) is None,
        forall|n: int|
            boot_info.covered(n) && n != old(active_table).mapper.cr3.frame_num as int
                ==> #[trigger] final(active_table).mapper.leaf_entry((Page { page_num: n as u64 }))
                == Some(encode_entry(n, boot_info.covered_flags(n)))
                && final(active_table).mapper.translate_page((Page { page_num: n as u64 }))
                == Some(n),
        forall|q: Page|
            q.page_num < PAGE_LIMIT && q.l4_index() != 511
                && !boot_info.covered(q.page_num as int)
                ==> #[trigger] final(active_table).mapper.translate_page(q) is None,
{
    let ghost m_init = active_table.mapper.mem@;
    let ghost cr3f = active_table.mapper.cr3.frame_num as int;
    let ghost iss_init = allocator.issuable();
    let ghost ss = boot_info.sections@;
    let ghost budget = remap_frames_budget(*boot_info);
    let ghost bootfr = boot_info.boot_end_frame() - boot_info.boot_start_frame();

    let tp = Page { page_num: MAGIC_PAGE_NUMBER };
    proof {
        assert((0xDEADBEEFu64 >> 27u64) & 0x1FFu64 != 511u64) by (bit_vector);
        lemma_frames_from_nonneg(ss, 0);
        vstd::arithmetic::div_mod::lemma_div_is_ordered(boot_info.start_address as int,
            boot_info.start_address + boot_info.total_size, PAGE_SIZE as int);
        assert(budget >= 4);
        crate::memory::lemma_at_least_mono(iss_init, 3, budget as nat);
    }
    let mut temp_page = TempPage::new(tp, allocator);
    let ghost iss_a = allocator.issuable();
    proof {
        assert(at_least(iss_a, (budget - 3) as nat));
        crate::memory::lemma_at_least_mono(iss_a, 1, (budget - 3) as nat);
    }
    let root_frame = match allocator.allocate_frame() {
        Some(f) => f,
        None => {
            proof {
                crate::memory::lemma_at_least_one_nonempty(iss_a);
            }
            Frame { frame_num: 0 }
        },
    };
    let ghost xf = root_frame.frame_num as int;
    proof {
        crate::memory::lemma_at_least_remove(iss_a, xf, (budget - 4) as nat);
        crate::memory::lemma_at_least_mono(temp_page.allocator.issuable(), active_table
            .mapper.tables_needed(tp), 3);
    }
    let mut inactive_table = InactivePageTable::new(root_frame, active_table, &mut temp_page);
    let ghost m_ia = active_table.mapper.mem@;
    proof {
        lemma_path_clear_trivial(active_table.mapper, tp);
        crate::memory::lemma_at_least_zero(temp_page.allocator.issuable());
        assert(active_table.mapper.tables_needed(tp) == 0);
    }
    active_table.start_editing(&inactive_table, &mut temp_page);
    let ghost w0 = leaf_entry_at(active_table.mapper.mem@, cr3f, tp);
    proof {
        assert(active_table.mapper.root() == xf);
        assert(w0 is Some && entry_present(w0.unwrap()));
        assert forall|q: Page| q.page_num < PAGE_LIMIT && q.l4_index() != 511 implies #[trigger]
            translate_page_at(active_table.mapper.mem@, xf, q) is None by {
            assert(translate_page_at(active_table.mapper.mem@, xf, q)
                == translate_page_at(m_ia, xf, q));
            assert(translate_page_at(m_ia, xf, q) is None
                && leaf_entry_at(m_ia, xf, q) is None);
        }
    }

    let scount = boot_info.sections.len();
    let mut si: usize = 0;
    while si < scount
        invariant
            active_table.wf(),
            active_table.mapper.cr3.frame_num as int == cr3f,
            active_table.mapper.root() == xf,
            si <= scount,
            allocator.inv(),
            allocator.issuable().subset_of(iss_init),
            frames_fresh(allocator.issuable(), active_table.mapper.mem@),
            at_least(allocator.issuable(), (3 * (frames_from(ss, si as int) + 1 + bootfr)) as nat),
            leaf_entry_at(active_table.mapper.mem@, cr3f, tp) == w0,
            active_table.mapper.mem@.contains_key(cr3f),
            active_table.mapper.mem@[cr3f].level == 4,
            inactive_table.valid(active_table.mapper.mem@),
            forall|j: int, n: int|
                0 <= j < si && #[trigger] ss[j].covers_frame(n)
                    ==> leaf_entry_at(active_table.mapper.mem@, xf, (Page { page_num: n as u64 }))
                    == Some(encode_entry(n, crate::boot::section_flag_bits(ss[j]) | PRESENT)),
            forall|q: Page|
                q.page_num < PAGE_LIMIT && q.l4_index() != 511
                    && !(exists|j: int|
                        0 <= j < si && (#[trigger] ss[j]).covers_frame(q.page_num as int))
                    ==> #[trigger] translate_page_at(active_table.mapper.mem@, xf, q) is None,
        decreases scount - si,
    {
        let section = boot_info.sections[si];
        proof {
            assert(frames_from(ss, si as int) == section_frame_count(section)
                + frames_from(ss, si as int + 1));
            lemma_frames_from_nonneg(ss, si as int + 1);
        }
        if section.allocated {
            let start_f = section.addr / PAGE_SIZE;
            let end_f = (section.addr + section.size) / PAGE_SIZE;
            proof {
                vstd::arithmetic::div_mod::lemma_div_is_ordered(section.addr as int,
                    section.end(), PAGE_SIZE as int);
                vstd::arithmetic::div_mod::lemma_div_is_ordered(section.end(),
                    crate::boot::IDENTITY_LIMIT as int, PAGE_SIZE as int);
            }
            let flags = EntryFlags::from_elf_section(&section);
            let mut f = start_f;
            while f < end_f
                invariant
                    active_table.wf(),
                    active_table.mapper.cr3.frame_num as int == cr3f,
                    active_table.mapper.root() == xf,
                    start_f <= f <= end_f,
                    allocator.inv(),
                    allocator.issuable().subset_of(iss_init),
                    frames_fresh(allocator.issuable(), active_table.mapper.mem@),
                    at_least(allocator.issuable(), (3 * ((end_f - f) + frames_from(ss, si as int
                        + 1) + 1 + bootfr)) as nat),
                    leaf_entry_at(active_table.mapper.mem@, cr3f, tp) == w0,
                    active_table.mapper.mem@.contains_key(cr3f),
                    active_table.mapper.mem@[cr3f].level == 4,
                    inactive_table.valid(active_table.mapper.mem@),
                    forall|j: int, n: int|
                        0 <= j < si && #[trigger] ss[j].covers_frame(n)
                            ==> leaf_entry_at(active_table.mapper.mem@, xf, (Page {
                            page_num: n as u64 })) == Some(encode_entry(n,
                            crate::boot::section_flag_bits(ss[j]) | PRESENT)),
                    forall|n: int|
                        start_f <= n < f
                            ==> #[trigger] leaf_entry_at(active_table.mapper.mem@, xf, (Page {
                            page_num: n as u64 })) == Some(encode_entry(n,
                            crate::boot::section_flag_bits(section) | PRESENT)),
                    forall|q: Page|
                        q.page_num < PAGE_LIMIT && q.l4_index() != 511
                            && !(exists|j: int|
                                0 <= j < si && (#[trigger] ss[j]).covers_frame(q.page_num as int))
                            && !(start_f <= q.page_num < f)
                            ==> #[trigger] translate_page_at(active_table.mapper.mem@, xf, q)
                            is None,
                decreases end_f - f,
            {
                let ghost m_pre = active_table.mapper.mem@;
                let ghost iss_pre = allocator.issuable();
                let ghost p = Page { page_num: f };
                proof {
                    lemma_identity_page_mappable(f);
                    assert(!(exists|j: int|
                        0 <= j < si && (#[trigger] ss[j]).covers_frame(f as int))) by {
                        if exists|j: int|
                            0 <= j < si && (#[trigger] ss[j]).covers_frame(f as int) {
                            let j = choose|j: int|
                                0 <= j < si && (#[trigger] ss[j]).covers_frame(f as int);
                            assert(ss[si as int].covers_frame(f as int));
                        }
                    }
                    assert(translate_page_at(m_pre, xf, p) is None);
                    lemma_path_clear_trivial(active_table.mapper, p);
                    let rem = (end_f - f) + frames_from(ss, si as int + 1) + 1 + bootfr;
                    crate::memory::lemma_at_least_mono(iss_pre, (active_table
                        .mapper.tables_needed(p) + 3 * (rem - 1)) as nat, (3 * rem) as nat);
                    crate::memory::lemma_at_least_mono(iss_pre, active_table
                        .mapper.tables_needed(p), (3 * rem) as nat);
                }
                active_table.mapper.identity_map(Frame { frame_num: f }, flags, allocator);
                proof {
                    let m_post = active_table.mapper.mem@;
                    assert(leaf_entry_at(m_post, xf, p) == Some(encode_entry(f as int,
                        crate::boot::section_flag_bits(section) | PRESENT)));
                    assert forall|j: int, n: int|
                        0 <= j < si && #[trigger] ss[j].covers_frame(n) implies leaf_entry_at(
                        m_post, xf, (Page { page_num: n as u64 })) == Some(encode_entry(n,
                        crate::boot::section_flag_bits(ss[j]) | PRESENT)) by {
                        assert(ss[si as int].covers_frame(f as int));
                        assert(n != f as int);
                        lemma_identity_page_mappable(n as u64);
                    }
                    assert forall|n: int| start_f <= n < f + 1 implies #[trigger] leaf_entry_at(
                        m_post, xf, (Page { page_num: n as u64 })) == Some(encode_entry(n,
                        crate::boot::section_flag_bits(section) | PRESENT)) by {
                        if n < f {
                            lemma_identity_page_mappable(n as u64);
                            assert(leaf_entry_at(m_pre, xf, (Page { page_num: n as u64 }))
                                is Some);
                        }
                    }
                    assert forall|q: Page|
                        q.page_num < PAGE_LIMIT && q.l4_index() != 511
                            && !(exists|j: int|
                                0 <= j < si && (#[trigger] ss[j]).covers_frame(q.page_num as int))
                            && !(start_f <= q.page_num < f + 1) implies #[trigger]
                        translate_page_at(m_post, xf, q) is None by {
                        assert(q.page_num != f);
                        assert(translate_page_at(m_post, xf, q) == translate_page_at(m_pre, xf,
                            q));
                    }
                    assert(leaf_entry_at(m_post, cr3f, tp) == w0) by {
                        assert(cr3f != xf);
                        assert(leaf_entry_at(m_pre, cr3f, tp) is Some);
                    }
                    let rem = (end_f - f) + frames_from(ss, si as int + 1) + 1 + bootfr;
                    assert(at_least(allocator.issuable(), (3 * (rem - 1)) as nat));
                }
                f = f + 1;
            }
            proof {
                assert(section_frame_count(section) == end_f - start_f);
                assert forall|j: int, n: int|
                    0 <= j < si + 1 && #[trigger] ss[j].covers_frame(n) implies leaf_entry_at(
                    active_table.mapper.mem@, xf, (Page { page_num: n as u64 }))
                    == Some(encode_entry(n, crate::boot::section_flag_bits(ss[j]) | PRESENT)) by {
                    if j == si {
                        assert(start_f <= n < end_f);
                    }
                }
                assert forall|q: Page|
                    q.page_num < PAGE_LIMIT && q.l4_index() != 511
                        && !(exists|j: int|
                            0 <= j < si + 1 && (#[trigger] ss[j]).covers_frame(
                                q.page_num as int)) implies #[trigger] translate_page_at(
                    active_table.mapper.mem@, xf, q) is None by {
                    assert(!ss[si as int].covers_frame(q.page_num as int));
                    assert(!(start_f <= q.page_num < end_f));
                }
            }
        } else {
            proof {
                assert forall|j: int, n: int|
                    0 <= j < si + 1 && #[trigger] ss[j].covers_frame(n) implies leaf_entry_at(
                    active_table.mapper.mem@, xf, (Page { page_num: n as u64 }))
                    == Some(encode_entry(n, crate::boot::section_flag_bits(ss[j]) | PRESENT)) by {
                    assert(j < si);
                }
                assert forall|q: Page|
                    q.page_num < PAGE_LIMIT && q.l4_index() != 511
                        && !(exists|j: int|
                            0 <= j < si + 1 && (#[trigger] ss[j]).covers_frame(
                                q.page_num as int)) implies #[trigger] translate_page_at(
                    active_table.mapper.mem@, xf, q) is None by {}
            }
        }
        si = si + 1;
    }

    proof {
        assert((0xB8000u64 / 4096u64) == 0xB8u64) by (bit_vector);
        lemma_identity_page_mappable(0xB8u64);
        assert(!(exists|j: int|
            0 <= j < ss.len() && (#[trigger] ss[j]).covers_frame(0xB8 as int)));
        assert(translate_page_at(active_table.mapper.mem@, xf, (Page { page_num: 0xB8u64 }))
            is None);
        lemma_path_clear_trivial(active_table.mapper, (Page { page_num: 0xB8u64 }));
        crate::entry::lemma_flag_algebra(0, 0);
        assert(frames_from(ss, scount as int) == 0);
        assert(at_least(allocator.issuable(), (3 * (1 + bootfr)) as nat));
        crate::memory::lemma_at_least_mono(allocator.issuable(), (active_table
            .mapper.tables_needed((Page { page_num: 0xB8u64 })) + 3 * bootfr) as nat, (3 * (1
            + bootfr)) as nat);
        crate::memory::lemma_at_least_mono(allocator.issuable(), active_table
            .mapper.tables_needed((Page { page_num: 0xB8u64 })), (3 * (1 + bootfr)) as nat);
    }
    let ghost m_preview = active_table.mapper.mem@;
    active_table.mapper.identity_map(Frame::frame_containing_address(VGA_BUFFER_START),
        EntryFlags { bits: WRITABLE }, allocator);
    proof {
        let m_post = active_table.mapper.mem@;
        assert(leaf_entry_at(m_post, xf, (Page { page_num: 0xB8u64 })) == Some(encode_entry(
            0xB8 as int, WRITABLE | PRESENT)));
        assert forall|j: int, n: int| 0 <= j < ss.len() && #[trigger] ss[j].covers_frame(n)
            implies leaf_entry_at(m_post, xf, (Page { page_num: n as u64 })) == Some(encode_entry(
            n, crate::boot::section_flag_bits(ss[j]) | PRESENT)) by {
            assert(n != 0xB8);
            lemma_identity_page_mappable(n as u64);
            assert(leaf_entry_at(m_preview, xf, (Page { page_num: n as u64 })) is Some);
        }
        assert forall|q: Page|
            q.page_num < PAGE_LIMIT && q.l4_index() != 511
                && !(exists|j: int|
                    0 <= j < ss.len() && (#[trigger] ss[j]).covers_frame(q.page_num as int))
                && q.page_num != 0xB8 implies #[trigger] translate_page_at(m_post, xf, q)
            is None by {
            assert(translate_page_at(m_post, xf, q) == translate_page_at(m_preview, xf, q));
        }
        assert(leaf_entry_at(m_post, cr3f, tp) == w0) by {
            assert(leaf_entry_at(m_preview, cr3f, tp) is Some);
        }
    }

    let b_start = boot_info.start_address / PAGE_SIZE;
    let b_end = (boot_info.start_address + boot_info.total_size) / PAGE_SIZE;
    proof {
        vstd::arithmetic::div_mod::lemma_div_is_ordered(boot_info.start_address
            + boot_info.total_size, crate::boot::IDENTITY_LIMIT as int, PAGE_SIZE as int);
        crate::entry::lemma_flag_algebra(0, 0);
    }
    let mut bf = b_start;
    while bf < b_end
        invariant
            active_table.wf(),
            active_table.mapper.cr3.frame_num as int == cr3f,
            active_table.mapper.root() == xf,
            b_start <= bf <= b_end,
            allocator.inv(),
            allocator.issuable().subset_of(iss_init),
            frames_fresh(allocator.issuable(), active_table.mapper.mem@),
            at_least(allocator.issuable(), (3 * (b_end - bf)) as nat),
            leaf_entry_at(active_table.mapper.mem@, cr3f, tp) == w0,
            active_table.mapper.mem@.contains_key(cr3f),
            active_table.mapper.mem@[cr3f].level == 4,
            inactive_table.valid(active_table.mapper.mem@),
            forall|j: int, n: int|
                0 <= j < ss.len() && #[trigger] ss[j].covers_frame(n)
                    ==> leaf_entry_at(active_table.mapper.mem@, xf, (Page { page_num: n as u64 }))
                    == Some(encode_entry(n, crate::boot::section_flag_bits(ss[j]) | PRESENT)),
            leaf_entry_at(active_table.mapper.mem@, xf, (Page { page_num: 0xB8u64 }))
                == Some(encode_entry(0xB8 as int, WRITABLE | PRESENT)),
            forall|n: int|
                b_start <= n < bf
                    ==> #[trigger] leaf_entry_at(active_table.mapper.mem@, xf, (Page {
                    page_num: n as u64 })) == Some(encode_entry(n, PRESENT | PRESENT)),
            forall|q: Page|
                q.page_num < PAGE_LIMIT && q.l4_index() != 511
                    && !(exists|j: int|
                        0 <= j < ss.len() && (#[trigger] ss[j]).covers_frame(q.page_num as int))
                    && q.page_num != 0xB8 && !(b_start <= q.page_num < bf)
                    ==> #[trigger] translate_page_at(active_table.mapper.mem@, xf, q) is None,
        decreases b_end - bf,
    {
        let ghost m_pre = active_table.mapper.mem@;
        let ghost p = Page { page_num: bf };
        proof {
            lemma_identity_page_mappable(bf);
            assert(!(exists|j: int|
                0 <= j < ss.len() && (#[trigger] ss[j]).covers_frame(bf as int))) by {
                if exists|j: int| 0 <= j < ss.len() && (#[trigger] ss[j]).covers_frame(
                    bf as int) {
                    let j = choose|j: int|
                        0 <= j < ss.len() && (#[trigger] ss[j]).covers_frame(bf as int);
                    assert(boot_info.boot_covers(bf as int));
                }
            }
            assert(bf != 0xB8) by {
                assert(boot_info.boot_covers(bf as int));
            }
            assert(translate_page_at(m_pre, xf, p) is None);
            lemma_path_clear_trivial(active_table.mapper, p);
            crate::memory::lemma_at_least_mono(allocator.issuable(), (active_table
                .mapper.tables_needed(p) + 3 * (b_end - bf - 1)) as nat, (3 * (b_end
                - bf)) as nat);
            crate::memory::lemma_at_least_mono(allocator.issuable(), active_table
                .mapper.tables_needed(p), (3 * (b_end - bf)) as nat);
        }
        active_table.mapper.identity_map(Frame { frame_num: bf }, EntryFlags { bits: PRESENT },
            allocator);
        proof {
            let m_post = active_table.mapper.mem@;
            assert(leaf_entry_at(m_post, xf, p) == Some(encode_entry(bf as int,
                PRESENT | PRESENT)));
            assert forall|j: int, n: int| 0 <= j < ss.len() && #[trigger] ss[j].covers_frame(n)
                implies leaf_entry_at(m_post, xf, (Page { page_num: n as u64 }))
                == Some(encode_entry(n, crate::boot::section_flag_bits(ss[j]) | PRESENT)) by {
                assert(boot_info.boot_covers(bf as int));
                assert(n != bf as int);
                lemma_identity_page_mappable(n as u64);
                assert(leaf_entry_at(m_pre, xf, (Page { page_num: n as u64 })) is Some);
            }
            assert(leaf_entry_at(m_post, xf, (Page { page_num: 0xB8u64 })) == Some(encode_entry(
                0xB8 as int, WRITABLE | PRESENT))) by {
                assert(leaf_entry_at(m_pre, xf, (Page { page_num: 0xB8u64 })) is Some);
            }
            assert forall|n: int| b_start <= n < bf + 1 implies #[trigger] leaf_entry_at(m_post,
                xf, (Page { page_num: n as u64 })) == Some(encode_entry(n, PRESENT | PRESENT))
                by {
                if n < bf {
                    lemma_identity_page_mappable(n as u64);
                    assert(leaf_entry_at(m_pre, xf, (Page { page_num: n as u64 })) is Some);
                }
            }
            assert forall|q: Page|
                q.page_num < PAGE_LIMIT && q.l4_index() != 511
                    && !(exists|j: int|
                        0 <= j < ss.len() && (#[trigger] ss[j]).covers_frame(q.page_num as int))
                    && q.page_num != 0xB8 && !(b_start <= q.page_num < bf + 1) implies #[trigger]
                translate_page_at(m_post, xf, q) is None by {
                assert(q.page_num != bf);
                assert(translate_page_at(m_post, xf, q) == translate_page_at(m_pre, xf, q));
            }
            assert(leaf_entry_at(m_post, cr3f, tp) == w0) by {
                assert(leaf_entry_at(m_pre, cr3f, tp) is Some);
            }
        }
        bf = bf + 1;
    }

    let ghost m_mapped = active_table.mapper.mem@;
    active_table.finish_editing(&mut temp_page);
    let ghost m_fe = active_table.mapper.mem@;
    proof {
        assert(inactive_table.valid(active_table.mapper.mem@));
    }
    let orig_table = active_table.switch(inactive_table);
    let ghost m_switched = active_table.mapper.mem@;
    proof {
        assert(active_table.mapper.root() == xf);
        assert(m_switched == m_fe);
        // the finished edit and the register switch left the new
        // hierarchy exactly as the mapping loops built it
        assert forall|q: Page|
            q.page_num < PAGE_LIMIT && q.l4_index() != 511 implies #[trigger] translate_page_at(
            m_switched, xf, q) == translate_page_at(m_mapped, xf, q) && #[trigger] leaf_entry_at(
            m_switched, xf, q) == leaf_entry_at(m_mapped, xf, q) by {
            assert(translate_page_at(m_fe, xf, q) == translate_page_at(m_mapped, xf, q)
                && leaf_entry_at(m_fe, xf, q) == leaf_entry_at(m_mapped, xf, q));
        }
        // the old root's identity page is mapped, so the guard unmap is
        // permitted
        assert(boot_info.covered(cr3f));
        lemma_identity_page_mappable(cr3f as u64);
        let pg = Page { page_num: cr3f as u64 };
        assert(translate_page_at(m_switched, xf, pg) == translate_page_at(m_mapped, xf, pg)
            && leaf_entry_at(m_switched, xf, pg) == leaf_entry_at(m_mapped, xf, pg));
        assert(leaf_entry_at(m_mapped, xf, pg) is Some
            && entry_present(leaf_entry_at(m_mapped, xf, pg).unwrap())) by {
            if boot_info.boot_covers(cr3f) {
                assert(b_start <= cr3f < b_end);
                assert(leaf_entry_at(m_mapped, xf, pg) == Some(encode_entry(cr3f,
                    PRESENT | PRESENT)));
                crate::entry::lemma_flag_algebra(0, 0);
                lemma_encode_fields(cr3f as u64, PRESENT);
            } else if cr3f == 0xB8 {
                assert(leaf_entry_at(m_mapped, xf, pg) == Some(encode_entry(cr3f,
                    WRITABLE | PRESENT)));
                crate::entry::lemma_flag_algebra(WRITABLE, PRESENT);
                lemma_encode_fields(cr3f as u64, WRITABLE | PRESENT);
            } else {
                let j = choose|j: int|
                    0 <= j < ss.len() && (#[trigger] ss[j]).covers_frame(cr3f);
                assert(leaf_entry_at(m_mapped, xf, pg) == Some(encode_entry(cr3f,
                    crate::boot::section_flag_bits(ss[j]) | PRESENT)));
                let a: u64 = if ss[j].writable {
                    WRITABLE
                } else {
                    0
                };
                let b: u64 = if ss[j].executable {
                    0
                } else {
                    crate::entry::NO_EXEC
                };
                crate::entry::lemma_flag_algebra(a, b);
                lemma_encode_fields(cr3f as u64, crate::boot::section_flag_bits(ss[j]) | PRESENT);
            }
        }
        vstd::arithmetic::div_mod::lemma_div_by_multiple(cr3f, PAGE_SIZE as int);
    }
    let guard_page = Page::containing_address(orig_table.page_map_frame.address());
    active_table.mapper.unmap(guard_page, allocator);
    proof {
        let m_fin = active_table.mapper.mem@;
        let pg = Page { page_num: cr3f as u64 };
        assert(active_table.mapper.translate_page(pg) is None);
        assert forall|n: int| boot_info.covered(n) && n != cr3f implies #[trigger] leaf_entry_at(
            m_fin, xf, (Page { page_num: n as u64 })) == Some(encode_entry(n,
            boot_info.covered_flags(n))) && translate_page_at(m_fin, xf, (Page {
            page_num: n as u64 })) == Some(n) by {
            lemma_identity_page_mappable(n as u64);
            lemma_covered_flags_wf(*boot_info, n);
            let pn = Page { page_num: n as u64 };
            assert(leaf_entry_at(m_mapped, xf, pn) == Some(encode_entry(n,
                boot_info.covered_flags(n)))) by {
                if boot_info.boot_covers(n) {
                    assert(b_start <= n < b_end);
                    assert(leaf_entry_at(m_mapped, xf, pn) == Some(encode_entry(n,
                        PRESENT | PRESENT)));
                    crate::entry::lemma_flag_algebra(0, 0);
                } else if n == 0xB8 {
                    assert(leaf_entry_at(m_mapped, xf, pn) == Some(encode_entry(n,
                        WRITABLE | PRESENT)));
                } else {
                    let j = choose|j: int|
                        0 <= j < ss.len() && (#[trigger] ss[j]).covers_frame(n);
                    assert(leaf_entry_at(m_mapped, xf, pn) == Some(encode_entry(n,
                        crate::boot::section_flag_bits(ss[j]) | PRESENT)));
                    let j2 = choose|j2: int|
                        0 <= j2 < boot_info.sections@.len()
                            && (#[trigger] boot_info.sections@[j2]).covers_frame(n);
                    assert(j2 == j);
                }
            }
            assert(translate_page_at(m_switched, xf, pn) == translate_page_at(m_mapped, xf, pn)
                && leaf_entry_at(m_switched, xf, pn) == leaf_entry_at(m_mapped, xf, pn));
            assert(pn.page_num != pg.page_num);
            assert(translate_page_at(m_fin, xf, pn) == translate_page_at(m_switched, xf, pn)
                && leaf_entry_at(m_fin, xf, pn) == leaf_entry_at(m_switched, xf, pn));
            assert(translate_page_at(m_fin, xf, pn) == Some(n)) by {
                lemma_encode_fields(n as u64, boot_info.covered_flags(n));
            }
        }
        assert forall|q: Page|
            q.page_num < PAGE_LIMIT && q.l4_index() != 511
                && !boot_info.covered(q.page_num as int) implies #[trigger] translate_page_at(
            m_fin, xf, q) is None by {
            assert(q.page_num != cr3f as u64);
            assert(translate_page_at(m_mapped, xf, q) is None);
            assert(translate_page_at(m_switched, xf, q) == translate_page_at(m_mapped, xf, q)
                && leaf_entry_at(m_switched, xf, q) == leaf_entry_at(m_mapped, xf, q));
            assert(translate_page_at(m_fin, xf, q) == translate_page_at(m_switched, xf, q)
                && leaf_entry_at(m_fin, xf, q) == leaf_entry_at(m_switched, xf, q));
        }
    }
}

/// The four table indices pin a page down: two pages of the 48-bit space
/// with the same indices at every level are the same page.
pub proof fn lemma_indices_determine_page(p: Page, q: Page)
    requires
        p.page_num < PAGE_LIMIT,
        q.page_num < PAGE_LIMIT,
        p.l4_index() == q.l4_index(),
        p.l3_index() == q.l3_index(),
        p.l2_index() == q.l2_index(),
        p.l1_index() == q.l1_index(),
    ensures
        p.page_num == q.page_num,
{
    let a = p.page_num;
    let b = q.page_num;
    assert(a == b) by (bit_vector)
        requires
            a < 0x10_0000_0000u64,
            b < 0x10_0000_0000u64,
            (a >> 27u64) & 0x1FFu64 == (b >> 27u64) & 0x1FFu64,
            (a >> 18u64) & 0x1FFu64 == (b >> 18u64) & 0x1FFu64,
            (a >> 9u64) & 0x1FFu64 == (b >> 9u64) & 0x1FFu64,
            a & 0x1FFu64 == b & 0x1FFu64,
    ;
}

} // verus!
