//! The allocation strategies and what they share.
//!
//! Every strategy works on addresses as plain numbers: it decides which
//! address range a request gets, and never touches the memory behind it.

use vstd::prelude::*;
use vstd::arithmetic::power2::is_pow2;
use crate::allocator::align::is_aligned;

pub mod align;
pub mod bump;
pub mod fixed_size_block;
pub mod linked_list;

verus! {

/// Why an allocation request was turned down.
#[derive(Clone, Copy, Debug, PartialEq, Eq, Structural)]
pub enum AllocError {
    /// No free space satisfies the request.
    OutOfMemory,
    /// Rounding or adding addresses for the request would wrap.
    Overflow,
}

/// A successful request as the contracts remember it: the address that
/// was handed out, and the size and alignment that were asked for.
pub struct Block {
    pub addr: usize,
    pub size: usize,
    pub align: usize,
}

/// The two operations that every strategy offers, with what holds of all of
/// them: a block that a request is served with starts at a multiple of the
/// alignment asked for, lies in the heap, and shares no address with a block
/// that is live.
pub trait HeapAllocator {
    /// The allocator is in a state that its operations keep.
    spec fn inv(&self) -> bool;

    /// The first address of the heap, and the first address past it.
    spec fn heap_range(&self) -> (usize, usize);

    /// The blocks handed out and not yet released, oldest first.
    spec fn live_blocks(&self) -> Seq<Block>;

    /// Asks for `size` bytes at a multiple of `align`.
    fn allocate(&mut self, size: usize, align: usize) -> (result: Result<usize, AllocError>)
        requires
            old(self).inv(),
            is_pow2(align as int),
        ensures
            final(self).inv(),
            final(self).heap_range() == old(self).heap_range(),
            match result {
                Ok(start) => {
                    &&& final(self).live_blocks() == old(self).live_blocks().push(
                        Block { addr: start, size, align },
                    )
                    &&& is_aligned(start as int, align as int)
                    &&& old(self).heap_range().0 <= start
                    &&& start + size <= old(self).heap_range().1
                    &&& forall|j: int|
                        0 <= j < old(self).live_blocks().len() ==> ranges_disjoint(
                            start as int,
                            size as int,
                            (#[trigger] old(self).live_blocks()[j]).addr as int,
                            old(self).live_blocks()[j].size as int,
                        )
                },
                Err(_) => final(self).live_blocks() == old(self).live_blocks(),
            },
    ;

    /// Gives back the block at `addr` that a request for `size` bytes at a
    /// multiple of `align` was served with.
    fn deallocate(&mut self, addr: usize, size: usize, align: usize)
        requires
            old(self).inv(),
            old(self).live_blocks().contains(Block { addr, size, align }),
        ensures
            final(self).inv(),
            final(self).heap_range() == old(self).heap_range(),
            final(self).live_blocks() == old(self).live_blocks().remove(
                old(self).live_blocks().index_of(Block { addr, size, align }),
            ),
    ;
}

/// An allocator without memory: it turns every request down.
pub struct Dummy;

impl Dummy {
    /// Fails with `OutOfMemory`, whatever is asked for.
    pub fn allocate(&self, size: usize, align: usize) -> (result: Result<usize, AllocError>)
        ensures
            result == Err::<usize, AllocError>(AllocError::OutOfMemory),
    {
        Err(AllocError::OutOfMemory)
    }
}

/// The ranges `[a, a + n)` and `[b, b + m)` share no address.
pub open spec fn ranges_disjoint(a: int, n: int, b: int, m: int) -> bool {
    a + n <= b || b + m <= a
}

} // verus!
