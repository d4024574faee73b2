use blog_os::allocator::bump::BumpAllocator;
use blog_os::allocator::{HEAP_SIZE, HEAP_START};
use blog_os::heap_data::HeapData;

fn heap_allocator() -> BumpAllocator {
    let mut bump = BumpAllocator::new();
    bump.init(HEAP_START, HEAP_SIZE);
    bump
}

#[test]
fn bump_first_allocation_starts_at_heap_start() {
    let mut bump = heap_allocator();
    assert_eq!(bump.allocate(10, 8), Some(HEAP_START));
    assert_eq!(bump.allocate(8, 8), Some(HEAP_START + 16));
}

#[test]
fn bump_alignment_invariant() {
    let mut bump = heap_allocator();
    bump.allocate(1, 1).unwrap();
    for align in [8u64, 16, 32, 64, 128, 256, 512, 1024, 2048] {
        let addr = bump.allocate(8, align).unwrap();
        assert_eq!(addr % align, 0);
    }
}

#[test]
fn bump_out_of_memory_is_none() {
    let mut bump = heap_allocator();
    assert_eq!(bump.allocate(HEAP_SIZE, 8), Some(HEAP_START));
    assert_eq!(bump.allocate(1, 1), None);
    // a failed allocation changes nothing
    assert_eq!(bump.allocations, 1);
    assert_eq!(bump.next, HEAP_START + HEAP_SIZE);
}

#[test]
fn bump_counter_returns_cursor_to_start() {
    let mut bump = heap_allocator();
    let a = bump.allocate(100, 8).unwrap();
    let b = bump.allocate(200, 16).unwrap();
    let c = bump.allocate(50, 8).unwrap();
    bump.deallocate(b, 200, 16);
    assert_ne!(bump.next, HEAP_START);
    bump.deallocate(a, 100, 8);
    assert_ne!(bump.next, HEAP_START);
    bump.deallocate(c, 50, 8);
    // all outstanding allocations freed: the whole region is reclaimed
    assert_eq!(bump.allocations, 0);
    assert_eq!(bump.next, HEAP_START);
    // and the region is reusable from the start
    assert_eq!(bump.allocate(10, 8), Some(HEAP_START));
}

#[test]
fn bump_exhaustion_and_reuse_single_live_object() {
    let mut bump = heap_allocator();
    let mut data = HeapData::new(HEAP_START, HEAP_SIZE);
    // allocate and free far more than the heap could hold at once;
    // with one live object at a time every round must succeed
    for i in 0..2 * HEAP_SIZE {
        let addr = bump.allocate(8, 8).expect("memory was not reused");
        data.write_u64(addr, i);
        assert_eq!(data.read_u64(addr), i);
        bump.deallocate(addr, 8, 8);
    }
}

#[test]
fn bump_round_trip_store_read() {
    let mut bump = heap_allocator();
    let mut data = HeapData::new(HEAP_START, HEAP_SIZE);
    for v in [0u64, 1, 41, 0xdead_beef, u64::MAX] {
        let addr = bump.allocate(8, 8).unwrap();
        data.write_u64(addr, v);
        assert_eq!(data.read_u64(addr), v);
    }
}
