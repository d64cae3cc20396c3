use rust_os::allocator::linked_list::{LinkedListAllocator, ListNode, NODE_ALIGN, NODE_SIZE};
use rust_os::allocator::AllocError;

fn heap(start: usize, size: usize) -> LinkedListAllocator {
    let mut allocator = LinkedListAllocator::new();
    allocator.init(start, size);
    allocator
}

fn free_bytes(allocator: &LinkedListAllocator) -> usize {
    allocator.free_regions().iter().map(|region| region.size).sum()
}

#[test]
fn node_knows_where_it_starts_and_ends() {
    let node = ListNode::new(0x1000, 48);
    assert_eq!(node.start_addr(), 0x1000);
    assert_eq!(node.end_addr(), 0x1030);
    assert_eq!(node, ListNode { addr: 0x1000, size: 48 });
    assert_eq!((NODE_SIZE, NODE_ALIGN), (16, 8));
}

#[test]
fn new_allocator_has_nothing_free() {
    let mut allocator = LinkedListAllocator::new();
    assert!(allocator.free_regions().is_empty());
    assert_eq!(allocator.allocate(1, 1), Err(AllocError::OutOfMemory));
}

#[test]
fn init_makes_the_heap_one_free_region() {
    let allocator = heap(0x1000, 4096);
    assert_eq!(allocator.free_regions(), vec![ListNode { addr: 0x1000, size: 4096 }]);
}

#[test]
fn requests_are_rounded_to_hold_a_node() {
    assert_eq!(LinkedListAllocator::size_align(1, 1), Some((16, 8)));
    assert_eq!(LinkedListAllocator::size_align(0, 1), Some((16, 8)));
    assert_eq!(LinkedListAllocator::size_align(16, 8), Some((16, 8)));
    assert_eq!(LinkedListAllocator::size_align(17, 8), Some((24, 8)));
    assert_eq!(LinkedListAllocator::size_align(20, 4), Some((24, 8)));
    assert_eq!(LinkedListAllocator::size_align(1, 32), Some((32, 32)));
    assert_eq!(LinkedListAllocator::size_align(33, 32), Some((64, 32)));
    assert_eq!(LinkedListAllocator::size_align(100, 16), Some((112, 16)));
}

#[test]
fn a_size_that_cannot_be_rounded_is_refused() {
    assert_eq!(LinkedListAllocator::size_align(usize::MAX, 1), None);
    assert_eq!(LinkedListAllocator::size_align(usize::MAX - 6, 8), None);
    assert_eq!(LinkedListAllocator::size_align(usize::MAX - 7, 8), Some((usize::MAX - 7, 8)));
}

#[test]
fn a_region_serves_what_fits_in_it() {
    let region = ListNode::new(0x1000, 64);
    assert_eq!(LinkedListAllocator::alloc_from_region(&region, 64, 8), Ok(0x1000));
    assert_eq!(LinkedListAllocator::alloc_from_region(&region, 16, 8), Ok(0x1000));
    assert_eq!(LinkedListAllocator::alloc_from_region(&region, 48, 8), Ok(0x1000));
    assert_eq!(LinkedListAllocator::alloc_from_region(&region, 65, 8), Err(()));
    assert_eq!(LinkedListAllocator::alloc_from_region(&region, usize::MAX, 8), Err(()));
}

#[test]
fn a_region_refuses_to_leave_a_rest_too_small_for_a_node() {
    let region = ListNode::new(0x1000, 64);
    assert_eq!(LinkedListAllocator::alloc_from_region(&region, 56, 8), Err(()));
    assert_eq!(LinkedListAllocator::alloc_from_region(&region, 49, 8), Err(()));
    assert_eq!(LinkedListAllocator::alloc_from_region(&region, 63, 1), Err(()));
}

#[test]
fn a_region_serves_from_its_first_aligned_address() {
    let region = ListNode::new(0x1008, 120);
    assert_eq!(LinkedListAllocator::alloc_from_region(&region, 32, 64), Ok(0x1040));
    assert_eq!(LinkedListAllocator::alloc_from_region(&region, 64, 64), Ok(0x1040));
    assert_eq!(LinkedListAllocator::alloc_from_region(&region, 72, 64), Err(()));
    assert_eq!(LinkedListAllocator::alloc_from_region(&region, 16, 256), Err(()));
    let top = ListNode::new(usize::MAX - 15, 15);
    assert_eq!(LinkedListAllocator::alloc_from_region(&top, 1, 32), Err(()));
}

#[test]
fn find_region_takes_the_first_fit_out_of_the_list() {
    let mut allocator = heap(0x1000, 256);
    let a = allocator.allocate(32, 8).unwrap();
    let b = allocator.allocate(64, 8).unwrap();
    let c = allocator.allocate(32, 8).unwrap();
    let _d = allocator.allocate(128, 8).unwrap();
    assert_eq!((a, b, c), (0x1000, 0x1020, 0x1060));
    assert!(allocator.free_regions().is_empty());
    allocator.deallocate(b, 64, 8);
    allocator.deallocate(a, 32, 8);
    allocator.deallocate(c, 32, 8);
    assert_eq!(
        allocator.free_regions(),
        vec![
            ListNode { addr: 0x1060, size: 32 },
            ListNode { addr: 0x1000, size: 32 },
            ListNode { addr: 0x1020, size: 64 },
        ]
    );
    assert_eq!(allocator.find_region(64, 8), Some((ListNode { addr: 0x1020, size: 64 }, 0x1020)));
    assert_eq!(
        allocator.free_regions(),
        vec![ListNode { addr: 0x1060, size: 32 }, ListNode { addr: 0x1000, size: 32 }]
    );
    assert_eq!(allocator.find_region(64, 8), None);
    assert_eq!(allocator.free_regions().len(), 2);
    assert_eq!(allocator.find_region(16, 8), Some((ListNode { addr: 0x1060, size: 32 }, 0x1060)));
}

#[test]
fn freed_head_is_served_first() {
    let mut allocator = heap(0x1000, 64);
    let first = allocator.allocate(16, 8).unwrap();
    let second = allocator.allocate(16, 8).unwrap();
    assert_eq!((first, second), (0x1000, 0x1010));
    allocator.deallocate(first, 16, 8);
    assert_eq!(allocator.allocate(16, 8), Ok(first));
}

#[test]
fn a_released_block_is_used_again() {
    let mut allocator = heap(0x8000, 1024);
    let _keep = allocator.allocate(40, 8).unwrap();
    let block = allocator.allocate(100, 16).unwrap();
    let free_before = free_bytes(&allocator);
    let regions_before = allocator.free_regions();
    allocator.deallocate(block, 100, 16);
    assert_eq!(free_bytes(&allocator), free_before + 112);
    assert_eq!(allocator.allocate(100, 16), Ok(block));
    assert_eq!(free_bytes(&allocator), free_before);
    assert_eq!(allocator.free_regions(), regions_before);
}

#[test]
fn what_is_left_behind_a_block_is_free_again() {
    let mut allocator = heap(0x1000, 128);
    assert_eq!(allocator.allocate(24, 8), Ok(0x1000));
    assert_eq!(allocator.free_regions(), vec![ListNode { addr: 0x1018, size: 104 }]);
    assert_eq!(allocator.allocate(1, 1), Ok(0x1018));
    assert_eq!(allocator.free_regions(), vec![ListNode { addr: 0x1028, size: 88 }]);
}

#[test]
fn a_block_that_takes_a_whole_region_leaves_nothing() {
    let mut allocator = heap(0x1000, 64);
    assert_eq!(allocator.allocate(64, 8), Ok(0x1000));
    assert!(allocator.free_regions().is_empty());
    assert_eq!(allocator.allocate(16, 8), Err(AllocError::OutOfMemory));
}

#[test]
fn released_neighbours_are_not_merged() {
    let mut allocator = heap(0x1000, 64);
    let a = allocator.allocate(32, 8).unwrap();
    let b = allocator.allocate(32, 8).unwrap();
    allocator.deallocate(a, 32, 8);
    allocator.deallocate(b, 32, 8);
    assert_eq!(
        allocator.free_regions(),
        vec![ListNode { addr: 0x1020, size: 32 }, ListNode { addr: 0x1000, size: 32 }]
    );
    assert_eq!(allocator.allocate(64, 8), Err(AllocError::OutOfMemory));
}

#[test]
fn too_large_a_request_is_out_of_memory() {
    let mut allocator = heap(0x1000, 64);
    assert_eq!(allocator.allocate(65, 1), Err(AllocError::OutOfMemory));
    assert_eq!(allocator.free_regions(), vec![ListNode { addr: 0x1000, size: 64 }]);
}

#[test]
fn an_unroundable_request_is_an_overflow() {
    let mut allocator = heap(0x1000, 64);
    assert_eq!(allocator.allocate(usize::MAX, 8), Err(AllocError::Overflow));
    assert_eq!(allocator.allocate(usize::MAX - 7, 8), Err(AllocError::OutOfMemory));
    assert_eq!(allocator.free_regions(), vec![ListNode { addr: 0x1000, size: 64 }]);
}

#[test]
fn bytes_before_an_aligned_block_are_given_up() {
    let mut allocator = heap(0x1008, 248);
    assert_eq!(allocator.allocate(64, 64), Ok(0x1040));
    assert_eq!(allocator.free_regions(), vec![ListNode { addr: 0x1080, size: 128 }]);
}

#[test]
fn free_list_blocks_lie_apart_in_the_heap() {
    let mut allocator = heap(0x2000, 2048);
    let requests = [(7usize, 1usize), (16, 16), (1, 2), (100, 64), (33, 8), (24, 4), (200, 32)];
    let mut blocks: Vec<(usize, usize, usize)> = Vec::new();
    for round in 0..3 {
        for (size, align) in requests {
            let addr = allocator.allocate(size, align).unwrap();
            assert_eq!(addr % align, 0);
            assert!(0x2000 <= addr && addr + size <= 0x2000 + 2048);
            for &(other, other_size, _) in &blocks {
                assert!(other + other_size <= addr || addr + size <= other);
            }
            blocks.push((addr, size, align));
        }
        for _ in 0..(4 + round) {
            let (addr, size, align) = blocks.remove(1);
            allocator.deallocate(addr, size, align);
        }
    }
}

#[test]
fn a_free_region_starts_at_a_multiple_of_8_and_holds_16_bytes() {
    assert!(LinkedListAllocator::holds_node(0, 16));
    assert!(LinkedListAllocator::holds_node(0x1000, 4096));
    assert!(LinkedListAllocator::holds_node(0x1008, 16));
    assert!(LinkedListAllocator::holds_node(usize::MAX - 7, 16));
    assert!(!LinkedListAllocator::holds_node(0x1001, 4096));
    assert!(!LinkedListAllocator::holds_node(0x1004, 4096));
    assert!(!LinkedListAllocator::holds_node(usize::MAX, 16));
    assert!(!LinkedListAllocator::holds_node(usize::MAX - 3, 16));
    assert!(!LinkedListAllocator::holds_node(0x1000, 15));
    assert!(!LinkedListAllocator::holds_node(0x1000, 0));
    for addr in 0usize..64 {
        assert_eq!(LinkedListAllocator::holds_node(addr, 16), addr % 8 == 0);
    }
}
