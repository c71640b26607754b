use kernel_memory::alpha_frame_allocator::AlphaFrameAllocator;
use kernel_memory::boot::{BootData, KernelSection};
use kernel_memory::entry::{EntryFlags, NO_EXEC, PRESENT, WRITABLE};
use kernel_memory::memory::{Frame, MemoryRegion};
use kernel_memory::paging::{remap_kernel, ActivePageTable, Page};
use kernel_memory::PAGE_SIZE;

/// Walk the active hierarchy by hand and return the leaf entry's flags
/// for a page, so tests can check protection bits exactly.
fn leaf_flags(active: &ActivePageTable, page: Page) -> Option<EntryFlags> {
    let root_entry = active.mapper.mem.read_entry(active.mapper.cr3.frame_num, 511);
    let root = root_entry.target_frame()?.frame_num;
    let t3 = active.mapper.mem.read_entry(root, page.page_map_index()).target_frame()?;
    let t2 = active.mapper.mem.read_entry(t3.frame_num, page.pointer_table_index())
        .target_frame()?;
    let t1 = active.mapper.mem.read_entry(t2.frame_num, page.page_dir_index()).target_frame()?;
    let leaf = active.mapper.mem.read_entry(t1.frame_num, page.page_table_index());
    leaf.target_frame()?;
    Some(leaf.flags())
}

/// End-to-end re-mapping: one allocated kernel section
/// `[0x100000, 0x102000)`, the boot block at `[0x30000, 0x31000)`, and
/// the previous root inside the boot block.  Afterwards the old root's
/// identity address is unmapped while every frame of the section stays
/// mapped with the protection flags its attributes demand.
#[test]
fn remap_builds_minimal_mapping() {
    let old_root = Frame { frame_num: 0x30 };
    let mut active = ActivePageTable::new(old_root);
    let regions = vec![MemoryRegion { base_addr: 0x20_0000, length: 0x10_0000 }];
    let mut alloc = AlphaFrameAllocator::new(0x10_0000, 0x2000, 0x30000, 0x1000, regions);
    let sections = vec![KernelSection {
        addr: 0x10_0000,
        size: 0x2000,
        writable: true,
        executable: false,
        allocated: true,
    }];
    let info = BootData { sections, start_address: 0x30000, total_size: 0x1000 };

    remap_kernel(&mut active, &mut alloc, &info);

    // the previous root's identity page is now a guard page
    assert_eq!(active.mapper.translate(0x30000), None);

    // every frame of the kernel section remains identity-mapped with
    // writable, no-exec protection
    for n in 0x100u64..0x102u64 {
        assert_eq!(active.mapper.translate(n * PAGE_SIZE + 7), Some(n * PAGE_SIZE + 7));
        let flags = leaf_flags(&active, Page { page_num: n }).expect("mapped");
        assert!(flags.contains(EntryFlags { bits: PRESENT | WRITABLE | NO_EXEC }));
    }

    // the diagnostic buffer page is mapped writable
    assert_eq!(active.mapper.translate(0xB8000 + 5), Some(0xB8000 + 5));
    let vga_flags = leaf_flags(&active, Page { page_num: 0xB8 }).expect("mapped");
    assert!(vga_flags.contains(EntryFlags { bits: PRESENT | WRITABLE }));
    assert!(!vga_flags.contains(EntryFlags { bits: NO_EXEC }));

    // nothing else is mapped
    assert_eq!(active.mapper.translate(0x50_0000), None);
    assert_eq!(active.mapper.translate(0x103_000), None);

    // the register now names a fresh root from the allocator's pool
    assert_ne!(active.mapper.cr3.frame_num, 0x30);
    assert!(active.mapper.cr3.frame_num >= 0x200);
}

/// Protection flags follow a section's attributes: code stays
/// read-only and executable, data becomes writable and no-exec.
#[test]
fn section_flags_derived() {
    let code = KernelSection {
        addr: 0,
        size: 0,
        writable: false,
        executable: true,
        allocated: true,
    };
    let data = KernelSection {
        addr: 0,
        size: 0,
        writable: true,
        executable: false,
        allocated: true,
    };
    assert_eq!(EntryFlags::from_elf_section(&code).bits(), 0);
    assert_eq!(EntryFlags::from_elf_section(&data).bits(), WRITABLE | NO_EXEC);
}

/// An unallocated section is not mapped at all.
#[test]
fn remap_skips_unallocated_sections() {
    let old_root = Frame { frame_num: 0x31 };
    let mut active = ActivePageTable::new(old_root);
    let regions = vec![MemoryRegion { base_addr: 0x20_0000, length: 0x10_0000 }];
    let mut alloc = AlphaFrameAllocator::new(0x10_0000, 0x2000, 0x30000, 0x2000, regions);
    let sections = vec![
        KernelSection {
            addr: 0x10_0000,
            size: 0x1000,
            writable: false,
            executable: true,
            allocated: true,
        },
        KernelSection {
            addr: 0x40_0000,
            size: 0x1000,
            writable: true,
            executable: false,
            allocated: false,
        },
    ];
    let info = BootData { sections, start_address: 0x30000, total_size: 0x2000 };

    remap_kernel(&mut active, &mut alloc, &info);

    // the allocated, executable, read-only section is mapped without
    // the writable or no-exec bits
    assert_eq!(active.mapper.translate(0x10_0000), Some(0x10_0000));
    let flags = leaf_flags(&active, Page { page_num: 0x100 }).expect("mapped");
    assert!(flags.contains(EntryFlags { bits: PRESENT }));
    assert!(!flags.contains(EntryFlags { bits: WRITABLE }));
    assert!(!flags.contains(EntryFlags { bits: NO_EXEC }));

    // the unallocated one is not mapped
    assert_eq!(active.mapper.translate(0x40_0000), None);

    // the boot block is mapped read-only
    let boot_flags = leaf_flags(&active, Page { page_num: 0x30 }).expect("mapped");
    assert!(boot_flags.contains(EntryFlags { bits: PRESENT }));
    assert!(!boot_flags.contains(EntryFlags { bits: WRITABLE }));
}
