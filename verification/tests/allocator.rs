use kernel_memory::alpha_frame_allocator::AlphaFrameAllocator;
use kernel_memory::memory::{FrameAllocator, MemoryRegion};

/// One usable region `[0, 0x100000)`, a kernel image at
/// `[0x10000, 0x20000)` and a boot-information block at
/// `[0x30000, 0x31000)`: the first frame is 0, the reserved intervals
/// are skipped entirely, and allocation ends at the region's end.
#[test]
fn single_region_sweep() {
    let regions = vec![MemoryRegion { base_addr: 0, length: 0x100000 }];
    let mut alloc = AlphaFrameAllocator::new(0x10000, 0x10000, 0x30000, 0x1000, regions);

    let first = alloc.allocate_frame().expect("a frame");
    assert_eq!(first.frame_num, 0);

    let mut frames = vec![first.frame_num];
    while let Some(f) = alloc.allocate_frame() {
        frames.push(f.frame_num);
    }

    for &n in &frames {
        let addr = n * 4096;
        assert!(addr < 0x100000);
        assert!(!(addr >= 0x10000 && addr < 0x20000));
        assert!(!(addr >= 0x30000 && addr < 0x31000));
    }
    // 256 frames in the region, minus 16 kernel frames and 1 boot frame
    assert_eq!(frames.len(), 256 - 16 - 1);
    assert_eq!(alloc.allocate_frame(), None);
}

/// Frames come out in strictly increasing order.
#[test]
fn frames_strictly_increase() {
    let regions = vec![
        MemoryRegion { base_addr: 0x1000, length: 0x5000 },
        MemoryRegion { base_addr: 0x10000, length: 0x3000 },
    ];
    let mut alloc = AlphaFrameAllocator::new(0x2000, 0x1000, 0x11000, 0x800, regions);
    let mut prev: Option<u64> = None;
    while let Some(f) = alloc.allocate_frame() {
        if let Some(p) = prev {
            assert!(f.frame_num > p);
        }
        prev = Some(f.frame_num);
    }
    assert!(prev.is_some());
}

/// The cursor fast-forwards to a region's first full frame: a region
/// starting off a page boundary yields its first aligned frame.
#[test]
fn unaligned_region_start() {
    let regions = vec![MemoryRegion { base_addr: 0x1800, length: 0x3000 }];
    let mut alloc = AlphaFrameAllocator::new(0, 0, 0, 0, regions);
    let first = alloc.allocate_frame().expect("a frame");
    // first full frame at or after 0x1800 starts at 0x2000
    assert_eq!(first.frame_num, 2);
    let second = alloc.allocate_frame().expect("a frame");
    assert_eq!(second.frame_num, 3);
    // the next frame would end at 0x5000 > 0x4800, so the region is done
    assert_eq!(alloc.allocate_frame(), None);
}

/// A frame is withheld whenever it merely overlaps a reserved interval,
/// even when the interval is not page-aligned.
#[test]
fn reserved_overlap_is_skipped() {
    let regions = vec![MemoryRegion { base_addr: 0, length: 0x5000 }];
    // kernel occupies [0x17FF, 0x2001): overlaps frames 1 and 2
    let mut alloc = AlphaFrameAllocator::new(0x17FF, 0x802, 0, 0, regions);
    assert_eq!(alloc.allocate_frame().unwrap().frame_num, 0);
    assert_eq!(alloc.allocate_frame().unwrap().frame_num, 3);
    assert_eq!(alloc.allocate_frame().unwrap().frame_num, 4);
    assert_eq!(alloc.allocate_frame(), None);
}

/// An empty region list yields nothing at all.
#[test]
fn no_regions_no_frames() {
    let mut alloc = AlphaFrameAllocator::new(0, 0, 0, 0, vec![]);
    assert_eq!(alloc.allocate_frame(), None);
}

/// A region entirely consumed by the reserved intervals yields nothing.
#[test]
fn fully_reserved_region() {
    let regions = vec![MemoryRegion { base_addr: 0x1000, length: 0x2000 }];
    let mut alloc = AlphaFrameAllocator::new(0x1000, 0x2000, 0, 0, regions);
    assert_eq!(alloc.allocate_frame(), None);
}

/// Deallocation is a stub by design: it returns nothing to the pool.
#[test]
fn deallocate_is_a_stub() {
    let regions = vec![MemoryRegion { base_addr: 0, length: 0x2000 }];
    let mut alloc = AlphaFrameAllocator::new(0, 0, 0, 0, regions);
    let a = alloc.allocate_frame().unwrap();
    let b = alloc.allocate_frame().unwrap();
    assert_eq!(alloc.allocate_frame(), None);
    alloc.deallocate_frame(a);
    alloc.deallocate_frame(b);
    assert_eq!(alloc.allocate_frame(), None);
}
