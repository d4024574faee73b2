use blog_os::allocator::fixed_size_block::{block_size, list_index, FixedSizeBlockAllocator};
use blog_os::allocator::{HEAP_SIZE, HEAP_START};
use blog_os::heap_data::HeapData;

fn heap_allocator() -> FixedSizeBlockAllocator {
    let mut fixed = FixedSizeBlockAllocator::new();
    fixed.init(HEAP_START, HEAP_SIZE);
    fixed
}

#[test]
fn block_size_table() {
    let sizes: Vec<u64> = (0..9).map(block_size).collect();
    assert_eq!(sizes, vec![8, 16, 32, 64, 128, 256, 512, 1024, 2048]);
}

#[test]
fn list_index_picks_the_smallest_fitting_class() {
    assert_eq!(list_index(1, 1), Some(0));
    assert_eq!(list_index(8, 8), Some(0));
    assert_eq!(list_index(9, 1), Some(1));
    assert_eq!(list_index(100, 8), Some(4));
    assert_eq!(list_index(2048, 1), Some(8));
    // the alignment counts as much as the size
    assert_eq!(list_index(1, 512), Some(6));
    // beyond the largest class there is no class
    assert_eq!(list_index(2049, 1), None);
    assert_eq!(list_index(8, 4096), None);
}

#[test]
fn size_class_boundary_reuses_the_exact_class() {
    let mut fixed = heap_allocator();
    // a 32-byte block drawn from the fallback, then freed into class 32
    let a = fixed.allocate(32, 8).unwrap();
    fixed.deallocate(a, 32, 8);
    // a smaller request must not take the class-32 block
    let b = fixed.allocate(8, 8).unwrap();
    assert_ne!(b, a);
    // a request for exactly 32 bytes is served from the class-32 list
    let c = fixed.allocate(32, 8).unwrap();
    assert_eq!(c, a);
}

#[test]
fn size_class_boundary_oversized_goes_to_fallback() {
    let mut fixed = heap_allocator();
    // one byte past the largest class: delegated to the fallback
    // allocator, and still served from within the heap bounds
    let a = fixed.allocate(2049, 8).unwrap();
    assert!(a >= HEAP_START);
    assert!(a + 2049 <= HEAP_START + HEAP_SIZE);
    // freed through the fallback as well, the space is reusable
    fixed.deallocate(a, 2049, 8);
    let b = fixed.allocate(2049, 8).unwrap();
    assert_eq!(b, a);
}

#[test]
fn fixed_size_alignment_invariant() {
    let mut fixed = heap_allocator();
    fixed.allocate(1, 1).unwrap();
    for align in [8u64, 16, 32, 64, 128, 256, 512, 1024, 2048] {
        let addr = fixed.allocate(8, align).unwrap();
        assert_eq!(addr % align, 0);
    }
}

#[test]
fn fixed_size_fallback_alloc_serves_large_requests() {
    let mut fixed = heap_allocator();
    let a = fixed.fallback_alloc(5000, 8).unwrap();
    assert_eq!(a, HEAP_START);
}

#[test]
fn fixed_size_exhaustion_and_reuse() {
    let mut fixed = heap_allocator();
    let mut data = HeapData::new(HEAP_START, HEAP_SIZE);
    for i in 0..2 * HEAP_SIZE {
        let addr = fixed.allocate(8, 8).expect("memory was not reused");
        data.write_u64(addr, i);
        assert_eq!(data.read_u64(addr), i);
        fixed.deallocate(addr, 8, 8);
    }
}

#[test]
fn fixed_size_round_trip_store_read() {
    let mut fixed = heap_allocator();
    let mut data = HeapData::new(HEAP_START, HEAP_SIZE);
    for v in [0u64, 7, 41, 0x1234_5678_9abc_def0, u64::MAX] {
        let addr = fixed.allocate(8, 8).unwrap();
        data.write_u64(addr, v);
        assert_eq!(data.read_u64(addr), v);
    }
}

#[test]
fn fixed_size_out_of_memory_is_none() {
    let mut fixed = heap_allocator();
    // swallow the whole heap through the fallback, then ask for more
    assert_eq!(fixed.allocate(HEAP_SIZE, 8), Some(HEAP_START));
    assert_eq!(fixed.allocate(8, 8), None);
    assert_eq!(fixed.allocate(3000, 8), None);
}
