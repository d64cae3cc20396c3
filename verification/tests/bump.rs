use rust_os::allocator::bump::BumpAllocator;
use rust_os::allocator::AllocError;

fn arena(start: usize, size: usize) -> BumpAllocator {
    let mut allocator = BumpAllocator::new();
    allocator.init(start, size);
    allocator
}

#[test]
fn new_allocator_has_an_empty_arena() {
    let mut allocator = BumpAllocator::new();
    assert_eq!(allocator.heap_start(), 0);
    assert_eq!(allocator.heap_end(), 0);
    assert_eq!(allocator.next(), 0);
    assert_eq!(allocator.allocations(), 0);
    assert_eq!(allocator.allocate(1, 1), Err(AllocError::OutOfMemory));
}

#[test]
fn init_sets_the_arena() {
    let allocator = arena(0x4444_0000, 100 * 1024);
    assert_eq!(allocator.heap_start(), 0x4444_0000);
    assert_eq!(allocator.heap_end(), 0x4444_0000 + 100 * 1024);
    assert_eq!(allocator.next(), 0x4444_0000);
    assert_eq!(allocator.allocations(), 0);
}

#[test]
fn three_blocks_then_out_of_memory() {
    let mut allocator = arena(0, 4096);
    let a = allocator.allocate(100, 1).unwrap();
    let b = allocator.allocate(100, 1).unwrap();
    let c = allocator.allocate(100, 1).unwrap();
    assert_eq!((a, b, c), (0, 100, 200));
    assert!(a < b && b < c && c + 100 <= 4096);
    assert_eq!(allocator.allocate(4000, 1), Err(AllocError::OutOfMemory));
    assert_eq!(allocator.next(), 300);
    assert_eq!(allocator.allocations(), 3);
}

#[test]
fn blocks_start_at_multiples_of_their_alignment() {
    let mut allocator = arena(0x1000, 4096);
    assert_eq!(allocator.allocate(3, 1), Ok(0x1000));
    assert_eq!(allocator.allocate(4, 8), Ok(0x1008));
    assert_eq!(allocator.allocate(1, 64), Ok(0x1040));
    assert_eq!(allocator.next(), 0x1041);
}

#[test]
fn a_block_may_end_at_the_end_of_the_arena() {
    let mut allocator = arena(0x1000, 64);
    assert_eq!(allocator.allocate(64, 8), Ok(0x1000));
    assert_eq!(allocator.allocate(1, 1), Err(AllocError::OutOfMemory));
    assert_eq!(allocator.allocate(0, 1), Ok(0x1040));
}

#[test]
fn a_size_that_wraps_is_an_overflow() {
    let mut allocator = arena(0x1000, 4096);
    assert_eq!(allocator.allocate(usize::MAX, 1), Err(AllocError::Overflow));
    assert_eq!(allocator.allocate(usize::MAX - 0x1000, 1), Err(AllocError::OutOfMemory));
    assert_eq!(allocator.next(), 0x1000);
    assert_eq!(allocator.allocations(), 0);
}

#[test]
fn rounding_that_wraps_is_an_overflow() {
    let top = usize::MAX - 15;
    let mut allocator = arena(top, 15);
    assert_eq!(allocator.allocate(1, 1), Ok(top));
    assert_eq!(allocator.allocate(1, 32), Err(AllocError::Overflow));
    assert_eq!(allocator.next(), top + 1);
}

#[test]
fn the_arena_is_reclaimed_with_the_last_release() {
    let mut allocator = arena(0, 4096);
    let a = allocator.allocate(100, 8).unwrap();
    let b = allocator.allocate(50, 8).unwrap();
    let c = allocator.allocate(10, 8).unwrap();
    let cursor = allocator.next();
    assert_eq!(allocator.allocations(), 3);
    allocator.deallocate(b, 50, 8);
    assert_eq!((allocator.allocations(), allocator.next()), (2, cursor));
    allocator.deallocate(c, 10, 8);
    assert_eq!((allocator.allocations(), allocator.next()), (1, cursor));
    allocator.deallocate(a, 100, 8);
    assert_eq!((allocator.allocations(), allocator.next()), (0, 0));
    assert_eq!(allocator.allocate(100, 8), Ok(a));
}

#[test]
fn a_release_alone_reclaims_nothing() {
    let mut allocator = arena(0, 4096);
    let a = allocator.allocate(100, 1).unwrap();
    let _b = allocator.allocate(100, 1).unwrap();
    allocator.deallocate(a, 100, 1);
    assert_eq!(allocator.allocate(100, 1), Ok(200));
}

#[test]
fn a_failed_request_is_not_counted() {
    let mut allocator = arena(0, 128);
    let a = allocator.allocate(100, 1).unwrap();
    assert_eq!(allocator.allocate(100, 1), Err(AllocError::OutOfMemory));
    assert_eq!(allocator.allocations(), 1);
    allocator.deallocate(a, 100, 1);
    assert_eq!(allocator.next(), 0);
}

#[test]
fn live_blocks_lie_apart_in_the_arena() {
    let mut allocator = arena(0x2000, 1024);
    let requests = [(7usize, 1usize), (16, 16), (1, 2), (100, 64), (33, 8), (0, 4), (200, 32)];
    let mut blocks: Vec<(usize, usize)> = Vec::new();
    for (size, align) in requests {
        let addr = allocator.allocate(size, align).unwrap();
        assert_eq!(addr % align, 0);
        assert!(0x2000 <= addr && addr + size <= 0x2000 + 1024);
        for &(other, other_size) in &blocks {
            assert!(other + other_size <= addr || addr + size <= other);
        }
        blocks.push((addr, size));
    }
}
