use blog_os::allocator::linked_list::{LinkedListAllocator, ListNode};
use blog_os::allocator::{HEAP_SIZE, HEAP_START};
use blog_os::heap_data::HeapData;

fn heap_allocator() -> LinkedListAllocator {
    let mut list = LinkedListAllocator::new();
    list.init(HEAP_START, HEAP_SIZE);
    list
}

#[test]
fn list_node_addresses() {
    let node = ListNode::new(0x1000, 64);
    assert_eq!(node.start_addr(), 0x1000);
    assert_eq!(node.end_addr(), 0x1040);
}

#[test]
fn size_align_pads_for_the_header() {
    // a request too small for a header grows to the header's layout
    assert_eq!(LinkedListAllocator::size_align(1, 1), (16, 8));
    // a larger size is padded to the adjusted alignment
    assert_eq!(LinkedListAllocator::size_align(20, 8), (24, 8));
    // a stricter alignment is kept and the size padded to it
    assert_eq!(LinkedListAllocator::size_align(8, 16), (16, 16));
}

#[test]
fn alloc_from_region_first_fit_rules() {
    // fits with a reusable tail
    let region = ListNode::new(0x1000, 64);
    assert_eq!(LinkedListAllocator::alloc_from_region(&region, 16, 32), Ok(0x1000));
    // fits exactly
    let exact = ListNode::new(0x1000, 16);
    assert_eq!(LinkedListAllocator::alloc_from_region(&exact, 16, 8), Ok(0x1000));
    // would leave a tail too small to hold a header
    let tight = ListNode::new(0x1000, 24);
    assert_eq!(LinkedListAllocator::alloc_from_region(&tight, 16, 8), Err(()));
    // plainly too small
    let small = ListNode::new(0x1000, 16);
    assert_eq!(LinkedListAllocator::alloc_from_region(&small, 32, 8), Err(()));
}

#[test]
fn linked_list_first_allocation_starts_at_heap_start() {
    let mut list = heap_allocator();
    assert_eq!(list.allocate(100, 8), Some(HEAP_START));
    // 100 is padded to 104; the next allocation follows the first
    assert_eq!(list.allocate(8, 8), Some(HEAP_START + 104));
}

#[test]
fn linked_list_freed_region_is_reused_first() {
    let mut list = heap_allocator();
    let a = list.allocate(100, 8).unwrap();
    let _b = list.allocate(64, 8).unwrap();
    list.deallocate(a, 100, 8);
    // the freed region stands at the head of the list and fits, so
    // first-fit returns it again
    assert_eq!(list.allocate(100, 8), Some(a));
}

#[test]
fn linked_list_alignment_invariant() {
    for align in [8u64, 16, 32, 64, 128, 256, 512, 1024, 2048] {
        let mut list = heap_allocator();
        list.allocate(1, 1).unwrap();
        let addr = list.allocate(8, align).unwrap();
        assert_eq!(addr % align, 0);
    }
}

#[test]
fn linked_list_out_of_memory_is_none() {
    let mut list = heap_allocator();
    assert_eq!(list.allocate(HEAP_SIZE, 8), Some(HEAP_START));
    assert_eq!(list.allocate(16, 8), None);
}

#[test]
fn linked_list_find_region_removes_the_region() {
    let mut list = heap_allocator();
    let (region, start) = list.find_region(64, 8).unwrap();
    assert_eq!(region.addr, HEAP_START);
    assert_eq!(region.size, HEAP_SIZE);
    assert_eq!(start, HEAP_START);
    // the whole heap was one region; nothing is left
    assert!(list.find_region(64, 8).is_none());
}

#[test]
fn linked_list_exhaustion_and_reuse() {
    let mut list = heap_allocator();
    let mut data = HeapData::new(HEAP_START, HEAP_SIZE);
    // allocate and immediately free a single word far more often than the
    // heap could hold without reuse
    for i in 0..2 * HEAP_SIZE {
        let addr = list.allocate(8, 8).expect("memory was not reused");
        data.write_u64(addr, i);
        assert_eq!(data.read_u64(addr), i);
        list.deallocate(addr, 8, 8);
    }
}

#[test]
fn linked_list_round_trip_store_read() {
    let mut list = heap_allocator();
    let mut data = HeapData::new(HEAP_START, HEAP_SIZE);
    for v in [0u64, 13, 41, 0xfeed_f00d, u64::MAX] {
        let addr = list.allocate(8, 8).unwrap();
        data.write_u64(addr, v);
        assert_eq!(data.read_u64(addr), v);
    }
}
