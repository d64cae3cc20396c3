use rust_os::allocator::bump::BumpAllocator;
use rust_os::allocator::fixed_size_block::FixedSizeBlockAllocator;
use rust_os::allocator::linked_list::LinkedListAllocator;
use rust_os::allocator::{AllocError, HeapAllocator};

const HEAP_START: usize = 0x4444_0000;
const HEAP_SIZE: usize = 16 * 1024;

/// Asks for blocks until the heap is used up, and gives all of them back.
fn fill_and_release<A: HeapAllocator>(allocator: &mut A) -> usize {
    let requests = [(24usize, 8usize), (100, 4), (1, 1), (512, 64), (40, 16), (3000, 8)];
    let mut blocks: Vec<(usize, usize, usize)> = Vec::new();
    let mut turn = 0;
    loop {
        let (size, align) = requests[turn % requests.len()];
        turn += 1;
        match allocator.allocate(size, align) {
            Ok(addr) => {
                assert_eq!(addr % align, 0);
                assert!(HEAP_START <= addr && addr + size <= HEAP_START + HEAP_SIZE);
                for &(other, other_size, _) in &blocks {
                    assert!(other + other_size <= addr || addr + size <= other);
                }
                blocks.push((addr, size, align));
            }
            Err(error) => {
                assert_eq!(error, AllocError::OutOfMemory);
                if size == 1 {
                    break;
                }
            }
        }
        assert!(turn < 100_000);
    }
    let served = blocks.len();
    for (addr, size, align) in blocks {
        allocator.deallocate(addr, size, align);
    }
    served
}

#[test]
fn bump_allocator_serves_apart_and_starts_over() {
    let mut allocator = BumpAllocator::new();
    allocator.init(HEAP_START, HEAP_SIZE);
    let first = fill_and_release(&mut allocator);
    assert!(first > 0);
    assert_eq!(allocator.next(), HEAP_START);
    assert_eq!(fill_and_release(&mut allocator), first);
}

#[test]
fn free_list_allocator_serves_apart() {
    let mut allocator = LinkedListAllocator::new();
    allocator.init(HEAP_START, HEAP_SIZE);
    assert!(fill_and_release(&mut allocator) > 0);
    let free: usize = allocator.free_regions().iter().map(|region| region.size).sum();
    assert!(0 < free && free <= HEAP_SIZE);
    assert!(fill_and_release(&mut allocator) > 0);
}

#[test]
fn segregated_allocator_serves_apart() {
    let mut allocator = FixedSizeBlockAllocator::new();
    allocator.init(HEAP_START, HEAP_SIZE);
    let first = fill_and_release(&mut allocator);
    assert!(first > 0);
    assert!(fill_and_release(&mut allocator) > 0);
}

#[test]
fn strategies_agree_on_a_first_request() {
    let mut bump = BumpAllocator::new();
    bump.init(HEAP_START, HEAP_SIZE);
    let mut list = LinkedListAllocator::new();
    list.init(HEAP_START, HEAP_SIZE);
    let mut classes = FixedSizeBlockAllocator::new();
    classes.init(HEAP_START, HEAP_SIZE);
    assert_eq!(HeapAllocator::allocate(&mut bump, 64, 64), Ok(HEAP_START));
    assert_eq!(HeapAllocator::allocate(&mut list, 64, 64), Ok(HEAP_START));
    assert_eq!(HeapAllocator::allocate(&mut classes, 64, 64), Ok(HEAP_START));
}
