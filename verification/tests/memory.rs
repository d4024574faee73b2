use blog_os::memory::{
    translate_address, BootInfoFrameAllocator, MapError, MemoryRegion, PageTable, PageTableEntry,
    PageTables, TranslateError, ENTRY_COUNT, PAGE_SIZE,
};

fn region(start: u64, end: u64, usable: bool) -> MemoryRegion {
    MemoryRegion { start, end, usable }
}

fn small_frame_allocator(frames: u64) -> BootInfoFrameAllocator {
    BootInfoFrameAllocator::init(vec![region(0x1000, 0x1000 + frames * PAGE_SIZE, true)])
}

#[test]
fn frame_allocator_skips_reserved_regions() {
    let map = vec![
        region(0x10000, 0x13000, true),
        region(0x13000, 0x20000, false),
        region(0x20000, 0x22000, true),
    ];
    let mut frames = BootInfoFrameAllocator::init(map);
    assert_eq!(frames.allocate_frame(), Some(0x10000));
    assert_eq!(frames.allocate_frame(), Some(0x11000));
    assert_eq!(frames.allocate_frame(), Some(0x12000));
    // the reserved region contributes nothing
    assert_eq!(frames.allocate_frame(), Some(0x20000));
    assert_eq!(frames.allocate_frame(), Some(0x21000));
    // physical memory is exhausted
    assert_eq!(frames.allocate_frame(), None);
    assert_eq!(frames.allocate_frame(), None);
}

#[test]
fn frame_allocator_frames_are_aligned_and_distinct() {
    let map = vec![region(0x40000, 0x48000, true), region(0x50000, 0x52000, true)];
    let mut frames = BootInfoFrameAllocator::init(map);
    let mut seen = Vec::new();
    while let Some(f) = frames.allocate_frame() {
        assert_eq!(f % PAGE_SIZE, 0);
        assert!(!seen.contains(&f));
        seen.push(f);
    }
    assert_eq!(seen.len(), 10);
}

#[test]
fn translate_unmapped_address_is_none() {
    let tables = PageTables::new();
    assert_eq!(translate_address(&tables, 0), Ok(None));
    assert_eq!(translate_address(&tables, 0x4444_4444_0123), Ok(None));
}

#[test]
fn map_then_translate_round_trip() {
    let mut tables = PageTables::new();
    let mut frames = small_frame_allocator(16);
    let page = 0x4000_0000;
    let frame = 0x7000;
    assert_eq!(tables.map(page, frame, true, &mut frames), Ok(()));
    // every offset within the page translates to the frame plus offset
    assert_eq!(translate_address(&tables, page), Ok(Some(frame)));
    assert_eq!(translate_address(&tables, page + 123), Ok(Some(frame + 123)));
    assert_eq!(translate_address(&tables, page + 4095), Ok(Some(frame + 4095)));
    // the neighbouring pages stay unmapped: no stale or garbage frame
    assert_eq!(translate_address(&tables, page - 1), Ok(None));
    assert_eq!(translate_address(&tables, page + 4096), Ok(None));
}

#[test]
fn map_twice_reports_already_mapped() {
    let mut tables = PageTables::new();
    let mut frames = small_frame_allocator(16);
    assert_eq!(tables.map(0x4000_0000, 0x7000, true, &mut frames), Ok(()));
    assert_eq!(
        tables.map(0x4000_0000, 0x8000, true, &mut frames),
        Err(MapError::PageAlreadyMapped)
    );
    // the original mapping is untouched
    assert_eq!(translate_address(&tables, 0x4000_0000), Ok(Some(0x7000)));
}

#[test]
fn map_without_frames_reports_allocation_failure() {
    let mut tables = PageTables::new();
    // a fresh mapping needs three intermediate tables; two frames are not
    // enough
    let mut frames = small_frame_allocator(2);
    assert_eq!(
        tables.map(0x4000_0000, 0x7000, true, &mut frames),
        Err(MapError::FrameAllocationFailed)
    );
    // the page is still unmapped, never partially linked
    assert_eq!(translate_address(&tables, 0x4000_0000), Ok(None));
}

#[test]
fn translate_through_huge_page_is_fatal() {
    // a huge-page entry as the bootloader might leave it: a frame pointer
    // above the lowest level
    let mut entries = Vec::new();
    for _ in 0..ENTRY_COUNT {
        entries.push(PageTableEntry::Absent);
    }
    entries[1] = PageTableEntry::Frame(0x20_0000, true);
    let tables = PageTables { root: PageTable { entries } };
    // an address whose level-4 index is 1
    let address = 0x80_0000_0000;
    assert_eq!(translate_address(&tables, address), Err(TranslateError::HugePage));
    // other addresses are unaffected
    assert_eq!(translate_address(&tables, 0), Ok(None));
}

#[test]
fn map_below_huge_page_reports_parent_huge() {
    let mut entries = Vec::new();
    for _ in 0..ENTRY_COUNT {
        entries.push(PageTableEntry::Absent);
    }
    // a 512 GiB huge mapping at level-4 index 1, as a bootloader might
    // leave it
    entries[1] = PageTableEntry::Frame(0x20_0000, true);
    let mut tables = PageTables { root: PageTable { entries } };
    let mut frames = small_frame_allocator(16);
    // mapping a page underneath it must refuse, not mistranslate
    assert_eq!(
        tables.map(0x80_0000_0000, 0x7000, true, &mut frames),
        Err(MapError::ParentEntryHugePage)
    );
}
