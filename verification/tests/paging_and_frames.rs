use kernel_mm::allocator::{init_heap, Locked, HEAP_SIZE, HEAP_START};
use kernel_mm::allocator::linked_list::LinkedListAllocator;
use kernel_mm::memory::{
    create_example_mapping, translate_virtaddr, translate_virtaddr_inner, BootInfoFrameAllocator,
    EmptyFrameAllocator, FrameError, MapToError, Mapper, MemoryRegion, MemoryRegionKind,
    PageTable, PageTableEntry, PageTableFlags, PhysFrame,
};

fn region(start: u64, end: u64, kind: MemoryRegionKind) -> MemoryRegion {
    MemoryRegion { start, end, kind }
}

fn usable(start: u64, end: u64) -> MemoryRegion {
    region(start, end, MemoryRegionKind::Usable)
}

#[test]
fn empty_frame_allocator_is_always_exhausted() {
    let mut empty = EmptyFrameAllocator;
    assert!(empty.allocate_frame().is_none());
    assert!(empty.allocate_frame().is_none());
}

#[test]
fn five_frames_then_permanent_exhaustion() {
    // exactly 5 usable page-aligned frames: the first 5 calls return 5
    // distinct, previously unseen frames; the 6th fails and every call
    // after it fails too.
    let map = vec![
        region(0x0, 0x1000, MemoryRegionKind::Reserved),
        usable(0x1000, 0x4000),
        region(0x4000, 0x8000, MemoryRegionKind::Reserved),
        usable(0x8000, 0xa000),
    ];
    let mut fa = BootInfoFrameAllocator::new(map);
    let mut seen = Vec::new();
    for _ in 0..5 {
        let frame = fa.allocate_frame().expect("one of the first five frames");
        assert_eq!(frame.start_address() % 4096, 0);
        assert!(!seen.contains(&frame.start_address()));
        seen.push(frame.start_address());
    }
    assert_eq!(seen, vec![0x1000, 0x2000, 0x3000, 0x8000, 0x9000]);
    for _ in 0..4 {
        assert!(fa.allocate_frame().is_none());
    }
}

#[test]
fn usable_frame_skips_reserved_regions() {
    let map = vec![usable(0x1000, 0x2000), region(0x2000, 0x5000, MemoryRegionKind::Reserved),
        usable(0x5000, 0x6000)];
    let fa = BootInfoFrameAllocator::new(map);
    assert_eq!(fa.usable_frame(0).unwrap().start_address(), 0x1000);
    assert_eq!(fa.usable_frame(1).unwrap().start_address(), 0x5000);
    assert!(fa.usable_frame(2).is_none());
}

#[test]
fn map_then_translate_returns_frame_base() {
    // mapping a page then immediately translating its start virtual
    // address yields exactly the mapped frame's base address
    let mut mapper = Mapper::new();
    let mut fa = BootInfoFrameAllocator::new(vec![usable(0x10000, 0x20000)]);
    let page: u64 = 0xdead_b000;
    let frame = PhysFrame { start: 0x7000 };
    let flags = PageTableFlags { present: true, writable: true };
    let flush = mapper.map_to(page, frame, flags, &mut fa).expect("mapping succeeds");
    flush.flush();
    assert_eq!(translate_virtaddr(&mapper, page), Some(0x7000));
    // the page offset is carried through
    assert_eq!(translate_virtaddr(&mapper, page + 123), Some(0x7000 + 123));
    // a neighbouring page stays unmapped
    assert_eq!(translate_virtaddr(&mapper, page + 4096), None);
}

#[test]
fn mapping_an_already_mapped_page_fails() {
    let mut mapper = Mapper::new();
    let mut fa = BootInfoFrameAllocator::new(vec![usable(0x10000, 0x20000)]);
    let flags = PageTableFlags { present: true, writable: true };
    let page: u64 = 0x4000_0000;
    mapper.map_to(page, PhysFrame { start: 0x3000 }, flags, &mut fa).unwrap().flush();
    let second = mapper.map_to(page, PhysFrame { start: 0x4000 }, flags, &mut fa);
    assert!(matches!(second, Err(MapToError::PageAlreadyMapped)));
    // the original translation is untouched
    assert_eq!(translate_virtaddr(&mapper, page), Some(0x3000));
}

#[test]
fn mapping_without_frames_fails() {
    let mut mapper = Mapper::new();
    let mut fa = BootInfoFrameAllocator::new(vec![]);
    let flags = PageTableFlags { present: true, writable: true };
    let res = mapper.map_to(0x5000, PhysFrame { start: 0x3000 }, flags, &mut fa);
    assert!(matches!(res, Err(MapToError::FrameAllocationFailed)));
    assert_eq!(translate_virtaddr(&mapper, 0x5000), None);
}

#[test]
fn huge_page_entry_is_reported_as_fatal() {
    // hand-build a hierarchy whose level-4 entry for address 0 is a
    // frame entry: a huge page, which translation must refuse
    let mut entries = Vec::new();
    entries.push(PageTableEntry::Frame { addr: 0x2000, writable: true });
    for _ in 1..512 {
        entries.push(PageTableEntry::NotPresent);
    }
    let mut mapper = Mapper { level_4_table: PageTable { entries } };
    assert_eq!(translate_virtaddr_inner(&mapper, 0), Err(FrameError::HugeFrame));
    // and the mapper refuses to descend through it
    let mut fa = BootInfoFrameAllocator::new(vec![usable(0x10000, 0x20000)]);
    let flags = PageTableFlags { present: true, writable: true };
    let r = mapper.map_to(0x1000, PhysFrame { start: 0x3000 }, flags, &mut fa);
    assert!(matches!(r, Err(MapToError::ParentEntryHugePage)));
}

#[test]
fn unmapped_address_translates_to_none() {
    let mapper = Mapper::new();
    assert_eq!(translate_virtaddr(&mapper, 0xdead_b000), None);
    assert_eq!(
        translate_virtaddr_inner(&mapper, 0xdead_b000),
        Err(FrameError::FrameNotPresent)
    );
}

#[test]
fn example_mapping_reaches_the_platform_frame() {
    let mut mapper = Mapper::new();
    let mut fa = BootInfoFrameAllocator::new(vec![usable(0x10000, 0x20000)]);
    let page: u64 = 0xdead_b000;
    create_example_mapping(page, &mut mapper, &mut fa);
    assert_eq!(translate_virtaddr(&mapper, page), Some(0xb8000));
}

#[test]
fn init_heap_maps_and_hands_over_the_range() {
    let mut mapper = Mapper::new();
    // 200 frames: plenty for 25 heap pages and their tables
    let mut fa = BootInfoFrameAllocator::new(vec![usable(0x100000, 0x100000 + 200 * 4096)]);
    let mut heap = Locked::new(LinkedListAllocator::new());
    init_heap(&mut mapper, &mut fa, &mut heap).expect("heap setup succeeds");
    // every heap page is backed, each by its own frame, in allocation order
    let mut previous: Option<u64> = None;
    for k in 0..(HEAP_SIZE / 4096) {
        let page = (HEAP_START + 4096 * k) as u64;
        let phys = translate_virtaddr(&mapper, page).expect("heap page mapped");
        if let Some(p) = previous {
            assert!(p < phys);
        }
        previous = Some(phys);
    }
    // and the allocator serves from the handed-over range
    let p = heap.allocate(256, 16).unwrap();
    assert!(p >= HEAP_START && p + 256 <= HEAP_START + HEAP_SIZE);
}

#[test]
fn init_heap_without_frames_aborts() {
    let mut mapper = Mapper::new();
    let mut fa = BootInfoFrameAllocator::new(vec![]);
    let mut heap = Locked::new(LinkedListAllocator::new());
    let r = init_heap(&mut mapper, &mut fa, &mut heap);
    assert!(matches!(r, Err(MapToError::FrameAllocationFailed)));
    // the allocator was never initialized
    assert_eq!(heap.allocate(16, 8), None);
}

#[test]
fn init_heap_frame_budget_is_exact() {
    // 25 heap pages share one chain of 3 intermediate tables: 28 frames
    // suffice, 27 do not
    let pages = HEAP_SIZE / 4096;
    let enough = (pages + 3) as u64;
    let mut mapper = Mapper::new();
    let mut fa = BootInfoFrameAllocator::new(vec![usable(0x100000, 0x100000 + enough * 4096)]);
    let mut heap = Locked::new(LinkedListAllocator::new());
    assert!(init_heap(&mut mapper, &mut fa, &mut heap).is_ok());

    let mut mapper = Mapper::new();
    let mut fa =
        BootInfoFrameAllocator::new(vec![usable(0x100000, 0x100000 + (enough - 1) * 4096)]);
    let mut heap = Locked::new(LinkedListAllocator::new());
    assert!(matches!(
        init_heap(&mut mapper, &mut fa, &mut heap),
        Err(MapToError::FrameAllocationFailed)
    ));
}
