//! The heap as the kernel uses it: page tables and frame allocator feed
//! `init_heap`, and the initialized strategy serves reads and writes
//! against the mapped region.

use blog_os::allocator::fixed_size_block::FixedSizeBlockAllocator;
use blog_os::allocator::{init_heap, HEAP_SIZE, HEAP_START};
use blog_os::heap_data::HeapData;
use blog_os::memory::{
    translate_address, BootInfoFrameAllocator, MapError, MemoryRegion, PageTables, PAGE_SIZE,
};

fn boot_setup(frames: u64) -> (PageTables, BootInfoFrameAllocator, FixedSizeBlockAllocator) {
    let map = vec![MemoryRegion { start: 0x1000, end: 0x1000 + frames * PAGE_SIZE, usable: true }];
    (PageTables::new(), BootInfoFrameAllocator::init(map), FixedSizeBlockAllocator::new())
}

#[test]
fn init_heap_maps_every_heap_page() {
    let (mut tables, mut frames, mut allocator) = boot_setup(64);
    assert_eq!(init_heap(&mut tables, &mut frames, &mut allocator), Ok(()));
    let pages = HEAP_SIZE / PAGE_SIZE;
    let mut backing = Vec::new();
    for p in 0..pages {
        let pa = translate_address(&tables, HEAP_START + p * PAGE_SIZE)
            .unwrap()
            .expect("heap page is unmapped");
        assert_eq!(pa % PAGE_SIZE, 0);
        assert!(!backing.contains(&pa));
        backing.push(pa);
    }
    // addresses outside the heap range stay unmapped
    assert_eq!(translate_address(&tables, HEAP_START - 1), Ok(None));
    assert_eq!(translate_address(&tables, HEAP_START + HEAP_SIZE), Ok(None));
    // the strategy now owns the whole range
    assert_eq!(allocator.allocate(100, 8), Some(HEAP_START));
}

#[test]
fn init_heap_succeeds_with_four_frames_per_page() {
    // the contract owes success at four frames per heap page: one for the
    // page itself and at most three for intermediate tables
    let pages = HEAP_SIZE / PAGE_SIZE;
    let (mut tables, mut frames, mut allocator) = boot_setup(4 * pages);
    assert_eq!(init_heap(&mut tables, &mut frames, &mut allocator), Ok(()));
}

#[test]
fn init_heap_fails_as_a_whole_without_enough_frames() {
    // 25 heap pages plus intermediate tables cannot come out of 10 frames
    let (mut tables, mut frames, mut allocator) = boot_setup(10);
    assert_eq!(
        init_heap(&mut tables, &mut frames, &mut allocator),
        Err(MapError::FrameAllocationFailed)
    );
    // the strategy was never initialized: the heap is unusable, not half-usable
    assert_eq!(allocator.allocate(8, 8), None);
}

/// Checks whether values can be stored on and read from the heap correctly.
#[test]
fn simple_allocation() {
    let (mut tables, mut frames, mut allocator) = boot_setup(64);
    init_heap(&mut tables, &mut frames, &mut allocator).expect("heap initialization failed");
    let mut data = HeapData::new(HEAP_START, HEAP_SIZE);

    let heap_value_1 = allocator.allocate(8, 8).unwrap();
    let heap_value_2 = allocator.allocate(8, 8).unwrap();
    data.write_u64(heap_value_1, 41);
    data.write_u64(heap_value_2, 13);
    assert_eq!(data.read_u64(heap_value_1), 41);
    assert_eq!(data.read_u64(heap_value_2), 13);
}

/// Checks whether large amounts of allocations and allocations of large
/// pieces of memory are possible.
#[test]
fn large_vec() {
    let (mut tables, mut frames, mut allocator) = boot_setup(64);
    init_heap(&mut tables, &mut frames, &mut allocator).expect("heap initialization failed");
    let mut data = HeapData::new(HEAP_START, HEAP_SIZE);

    let n: u64 = 1_000;
    // one backing block for n machine words: far beyond the largest size
    // class, so it comes from the fallback allocator
    let buffer = allocator.allocate(n * 8, 8).unwrap();
    for i in 0..n {
        data.write_u64(buffer + i * 8, i);
    }
    let mut sum = 0;
    for i in 0..n {
        sum += data.read_u64(buffer + i * 8);
    }
    assert_eq!(sum, (n - 1) * n / 2);
}

/// Checks whether deallocated memory is reused.
#[test]
fn many_boxes() {
    let (mut tables, mut frames, mut allocator) = boot_setup(64);
    init_heap(&mut tables, &mut frames, &mut allocator).expect("heap initialization failed");
    let mut data = HeapData::new(HEAP_START, HEAP_SIZE);

    for i in 0..HEAP_SIZE {
        let x = allocator.allocate(8, 8).expect("memory was not reused");
        data.write_u64(x, i);
        assert_eq!(data.read_u64(x), i);
        allocator.deallocate(x, 8, 8);
    }
}

/// Checks whether memory is reused when one piece of memory is never freed.
#[test]
fn many_boxes_long_lived() {
    let (mut tables, mut frames, mut allocator) = boot_setup(64);
    init_heap(&mut tables, &mut frames, &mut allocator).expect("heap initialization failed");
    let mut data = HeapData::new(HEAP_START, HEAP_SIZE);

    let long_lived = allocator.allocate(8, 8).unwrap();
    data.write_u64(long_lived, 1);
    for i in 0..HEAP_SIZE {
        let x = allocator.allocate(8, 8).expect("memory was not reused");
        data.write_u64(x, i);
        assert_eq!(data.read_u64(x), i);
        allocator.deallocate(x, 8, 8);
    }
    // the long-lived object survived the churn unscathed
    assert_eq!(data.read_u64(long_lived), 1);
}
