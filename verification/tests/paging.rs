use kernel_memory::alpha_frame_allocator::AlphaFrameAllocator;
use kernel_memory::entry::{
    EntryFlags, PageEntry, HUGE_PAGE, NO_EXEC, PAGE_ALIGNED_52_BIT_MASK, PRESENT, WRITABLE,
};
use kernel_memory::memory::{Frame, FrameAllocator, MemoryRegion};
use kernel_memory::paging::{ActivePageTable, InactivePageTable, Page};
use kernel_memory::table::Table;
use kernel_memory::temp_page::{MiniAllocator, TempPage};
use kernel_memory::PAGE_SIZE;

fn pool() -> AlphaFrameAllocator {
    // a generous pool well away from the frames the tests map
    let regions = vec![MemoryRegion { base_addr: 0x40_0000, length: 0x10_0000 }];
    AlphaFrameAllocator::new(0, 0, 0, 0, regions)
}

/// An entry encodes a frame and flags; both decode back out.
#[test]
fn entry_round_trip() {
    let mut e = PageEntry(0);
    assert!(e.is_unused());
    e.set(Frame { frame_num: 5 }, EntryFlags { bits: WRITABLE | NO_EXEC });
    assert!(!e.is_unused() || e.flags().bits() & PRESENT == 0);
    assert_eq!(e.target_frame(), None); // not present yet
    e.set(Frame { frame_num: 5 }, EntryFlags { bits: PRESENT | WRITABLE });
    assert_eq!(e.target_frame(), Some(Frame { frame_num: 5 }));
    assert!(e.flags().contains(EntryFlags { bits: WRITABLE }));
    assert!(!e.flags().contains(EntryFlags { bits: HUGE_PAGE }));
}

/// Clearing the present bit keeps the stored frame address in the
/// entry's address field, while replacing the flags of a non-present
/// entry drops it.
#[test]
fn mark_unused_keeps_address() {
    let mut e = PageEntry(0);
    e.set(Frame { frame_num: 9 }, EntryFlags { bits: PRESENT | WRITABLE });
    e.mark_unused();
    assert!(e.is_unused());
    assert_eq!(e.target_frame(), None);
    assert_eq!(e.0 & PAGE_ALIGNED_52_BIT_MASK, 9 * 4096);
    // flags written to a non-present entry do not resurrect the frame
    e.set_flags(EntryFlags { bits: PRESENT });
    assert_eq!(e.target_frame(), Some(Frame { frame_num: 0 }));
}

/// Unknown bits are dropped when flags are read back.
#[test]
fn flags_truncate() {
    let f = EntryFlags::from_bits_truncate(0xFFFF);
    assert_eq!(f.bits() & 0x1FF, 0x1FF);
    assert_eq!(f.bits() & 0xFE00, 0);
}

/// The four level indices slice a page number into 9-bit fields.
#[test]
fn page_indices() {
    // 0b000000011_000000010_000000001_000000000
    let n: u64 = (3 << 27) | (2 << 18) | (1 << 9);
    let p = Page { page_num: n };
    assert_eq!(p.page_map_index(), 3);
    assert_eq!(p.pointer_table_index(), 2);
    assert_eq!(p.page_dir_index(), 1);
    assert_eq!(p.page_table_index(), 0);
    assert_eq!(Page::containing_address(0x3007).page_num, 3);
    assert_eq!(Page { page_num: 3 }.starting_address(), 0x3000);
}

/// Clearing a table unsets every present bit but keeps the stored
/// addresses.
#[test]
fn table_clear_unsets_present() {
    let mut t = Table::empty();
    let mut e = PageEntry(0);
    e.set(Frame { frame_num: 3 }, EntryFlags { bits: PRESENT | WRITABLE });
    t.entries[7] = e;
    t.clear();
    for i in 0..512 {
        assert!(t.entries[i].is_unused());
    }
    assert_eq!(t.entries[7].0 & PAGE_ALIGNED_52_BIT_MASK, 3 * 4096);
}

/// The recursive-mapping descent formula has the canonical root address
/// as a fixed point at the recursive index.
#[test]
fn recursive_address_fixed_point() {
    let mut t = Table::empty();
    let mut e = PageEntry(0);
    e.set(Frame { frame_num: 0x42 }, EntryFlags { bits: PRESENT | WRITABLE });
    t.entries[511] = e;
    let root = 0xFFFF_FFFF_FFFF_F000u64;
    assert_eq!(t.next_table_addr(root, 511), Some(root));
    assert_eq!(t.next_table_addr(root, 0), None);
}

/// Mapping virtual page 0 to frame 5 writable, then translating
/// virtual address 0x123, yields frame 5's base plus the offset.
#[test]
fn map_zero_to_five() {
    let mut active = ActivePageTable::new(Frame { frame_num: 0x300 });
    let mut alloc = pool();
    active.mapper.map_page_to_frame(Page { page_num: 0 }, Frame { frame_num: 5 },
        EntryFlags { bits: WRITABLE }, &mut alloc);
    assert_eq!(active.mapper.translate(0x123), Some(5 * PAGE_SIZE + 0x123));
}

/// Round trip for an arbitrary page: translate returns the mapped
/// frame's base plus the page offset.
#[test]
fn map_round_trip() {
    let mut active = ActivePageTable::new(Frame { frame_num: 0x300 });
    let mut alloc = pool();
    let page = Page::containing_address(0xDEAD_B000);
    active.mapper.map_page_to_frame(page, Frame { frame_num: 0x77 },
        EntryFlags { bits: WRITABLE }, &mut alloc);
    assert_eq!(active.mapper.translate(0xDEAD_B042), Some(0x77 * PAGE_SIZE + 0x42));
    assert_eq!(active.mapper.translate(0xDEAD_A042), None);
}

/// Re-mapping with identical arguments changes nothing.
#[test]
fn map_is_idempotent() {
    let mut active = ActivePageTable::new(Frame { frame_num: 0x300 });
    let mut alloc = pool();
    let page = Page { page_num: 42 };
    let frame = Frame { frame_num: 7 };
    active.mapper.map_page_to_frame(page, frame, EntryFlags { bits: WRITABLE }, &mut alloc);
    let before = active.mapper.translate(42 * PAGE_SIZE);
    active.mapper.map_page_to_frame(page, frame, EntryFlags { bits: WRITABLE }, &mut alloc);
    assert_eq!(active.mapper.translate(42 * PAGE_SIZE), before);
    assert_eq!(before, Some(7 * PAGE_SIZE));
}

/// Re-mapping to a different frame overwrites silently.
#[test]
fn remap_overwrites() {
    let mut active = ActivePageTable::new(Frame { frame_num: 0x300 });
    let mut alloc = pool();
    let page = Page { page_num: 10 };
    active.mapper.map_page_to_frame(page, Frame { frame_num: 1 },
        EntryFlags { bits: WRITABLE }, &mut alloc);
    active.mapper.map_page_to_frame(page, Frame { frame_num: 2 },
        EntryFlags { bits: WRITABLE }, &mut alloc);
    assert_eq!(active.mapper.translate(10 * PAGE_SIZE), Some(2 * PAGE_SIZE));
}

/// After unmapping a page it translates to nothing, while a prior
/// mapping of a different page is unaffected.
#[test]
fn unmap_leaves_others() {
    let mut active = ActivePageTable::new(Frame { frame_num: 0x300 });
    let mut alloc = pool();
    let a = Page { page_num: 100 };
    let b = Page { page_num: 101 };
    active.mapper.map_page_to_frame(a, Frame { frame_num: 11 },
        EntryFlags { bits: WRITABLE }, &mut alloc);
    active.mapper.map_page_to_frame(b, Frame { frame_num: 12 },
        EntryFlags { bits: WRITABLE }, &mut alloc);
    active.mapper.unmap(a, &mut alloc);
    assert_eq!(active.mapper.translate(100 * PAGE_SIZE), None);
    assert_eq!(active.mapper.translate(101 * PAGE_SIZE), Some(12 * PAGE_SIZE));
}

/// `map_page` takes its frame from the allocator.
#[test]
fn map_page_allocates() {
    let mut active = ActivePageTable::new(Frame { frame_num: 0x300 });
    let mut alloc = pool();
    active.mapper.map_page(Page { page_num: 200 }, EntryFlags { bits: WRITABLE }, &mut alloc);
    let target = active.mapper.translate(200 * PAGE_SIZE).expect("mapped");
    // the frame came from the pool region
    assert!(target >= 0x40_0000 && target < 0x50_0000);
}

/// Identity mapping makes a page whose number equals its frame's.
#[test]
fn identity_map_matches() {
    let mut active = ActivePageTable::new(Frame { frame_num: 0x300 });
    let mut alloc = pool();
    active.mapper.identity_map(Frame { frame_num: 0xB8 }, EntryFlags { bits: WRITABLE },
        &mut alloc);
    assert_eq!(active.mapper.translate(0xB8000 + 0xFF), Some(0xB8000 + 0xFF));
}

/// A fresh hierarchy translates nothing.
#[test]
fn fresh_table_is_empty() {
    let active = ActivePageTable::new(Frame { frame_num: 0x300 });
    assert_eq!(active.mapper.translate(0), None);
    assert_eq!(active.mapper.translate(0x1234_5000), None);
}

/// The mini allocator hands its three frames out once each and takes
/// one back.
#[test]
fn mini_allocator_pool() {
    let mut alloc = pool();
    let mut mini = MiniAllocator::new(&mut alloc);
    let a = mini.allocate_frame().expect("first");
    let b = mini.allocate_frame().expect("second");
    let c = mini.allocate_frame().expect("third");
    assert!(a != b && b != c && a != c);
    assert_eq!(mini.allocate_frame(), None);
    mini.deallocate_frame(b);
    assert_eq!(mini.allocate_frame(), Some(b));
    assert_eq!(mini.allocate_frame(), None);
}

/// An inactive table can be created, edited through the recursive-slot
/// swap, and switched to: the edit never shows in the active hierarchy,
/// and becomes live with the switch.
#[test]
fn inactive_edit_lifecycle() {
    let mut active = ActivePageTable::new(Frame { frame_num: 0x300 });
    let mut alloc = pool();
    let mut temp = TempPage::new(Page { page_num: 0x777 }, &mut alloc);
    let root2 = alloc.allocate_frame().expect("a root frame");
    let inactive = InactivePageTable::new(root2, &mut active, &mut temp);

    active.start_editing(&inactive, &mut temp);
    active.mapper.identity_map(Frame { frame_num: 0xB8 }, EntryFlags { bits: WRITABLE },
        &mut alloc);
    active.finish_editing(&mut temp);

    // the active hierarchy never saw the mapping
    assert_eq!(active.mapper.translate(0xB8000), None);

    let old = active.switch(inactive);
    assert_eq!(old.page_map_frame.frame_num, 0x300);
    // after switching, the edited mapping is live
    assert_eq!(active.mapper.translate(0xB8000), Some(0xB8000));
}

/// The temporary page maps a frame at its reserved spot and unmaps it
/// again.
#[test]
fn temp_page_round_trip() {
    let mut active = ActivePageTable::new(Frame { frame_num: 0x300 });
    let mut alloc = pool();
    let spot = Page { page_num: 0x1234 };
    let mut temp = TempPage::new(spot, &mut alloc);
    let addr = temp.map_to_frame(Frame { frame_num: 0x99 }, &mut active);
    assert_eq!(addr, 0x1234 * PAGE_SIZE);
    assert_eq!(active.mapper.translate(addr), Some(0x99 * PAGE_SIZE));
    temp.unmap(&mut active);
    assert_eq!(active.mapper.translate(addr), None);
}
