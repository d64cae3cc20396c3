//! A bump allocator: requests are served from a cursor that only moves
//! forward, and the arena is reclaimed as a whole once nothing is live.

use vstd::prelude::*;
use vstd::arithmetic::power2::is_pow2;
use crate::allocator::align::{
    align_up_spec, checked_align_up, lemma_align_up_is_least_multiple, lemma_power_of_two_positive,
};
use crate::allocator::{ranges_disjoint, AllocError, Block, HeapAllocator};

verus! {

/// The abstract state of a bump allocator.
pub struct BumpState {
    pub heap_start: usize,
    pub heap_end: usize,
    pub next: usize,
    /// The blocks handed out and not yet released, oldest first.
    pub live: Seq<Block>,
}

impl BumpState {
    /// The cursor lies in the arena, every live block lies below the cursor,
    /// live blocks do not overlap, and the cursor is at the start whenever
    /// nothing is live.
    pub open spec fn wf(self) -> bool {
        &&& self.heap_start <= self.next <= self.heap_end
        &&& self.live.len() == 0 ==> self.next == self.heap_start
        &&& forall|i: int|
            0 <= i < self.live.len() ==> self.heap_start <= (#[trigger] self.live[i]).addr
                && self.live[i].addr + self.live[i].size <= self.next
        &&& forall|i: int, j: int|
            0 <= i < j < self.live.len() ==> ranges_disjoint(
                (#[trigger] self.live[i]).addr as int,
                self.live[i].size as int,
                (#[trigger] self.live[j]).addr as int,
                self.live[j].size as int,
            )
    }

    /// Where a request with this alignment would start.
    pub open spec fn allocate_start(self, align: usize) -> int {
        align_up_spec(self.next as int, align as int)
    }

    /// What `allocate` answers in this state.
    pub open spec fn allocate_result(self, size: usize, align: usize) -> Result<usize, AllocError> {
        let end = self.allocate_start(align) + size;
        if end > usize::MAX {
            Err(AllocError::Overflow)
        } else if end > self.heap_end {
            Err(AllocError::OutOfMemory)
        } else if self.live.len() >= usize::MAX {
            Err(AllocError::Overflow)
        } else {
            Ok(self.allocate_start(align) as usize)
        }
    }

    /// The state after `allocate`: unchanged when the request fails.
    pub open spec fn after_allocate(self, size: usize, align: usize) -> BumpState {
        match self.allocate_result(size, align) {
            Ok(start) => BumpState {
                next: (start + size) as usize,
                live: self.live.push(Block { addr: start, size, align }),
                ..self
            },
            Err(_) => self,
        }
    }

    /// The state after `block` is released: the cursor returns to the start
    /// when `block` was the last one live.
    pub open spec fn after_deallocate(self, block: Block) -> BumpState {
        BumpState {
            next: if self.live.len() == 1 {
                self.heap_start
            } else {
                self.next
            },
            live: self.live.remove(self.live.index_of(block)),
            ..self
        }
    }

    /// The state after the requests `(size, align)` of `requests`, in order.
    pub open spec fn after_allocate_all(self, requests: Seq<(usize, usize)>) -> BumpState
        decreases requests.len(),
    {
        if requests.len() == 0 {
            self
        } else {
            self.after_allocate(requests[0].0, requests[0].1).after_allocate_all(
                requests.drop_first(),
            )
        }
    }

    /// Every request of `requests`, made in order, is served.
    pub open spec fn all_served(self, requests: Seq<(usize, usize)>) -> bool
        decreases requests.len(),
    {
        requests.len() == 0 || {
            &&& is_pow2(requests[0].1 as int)
            &&& self.allocate_result(requests[0].0, requests[0].1) is Ok
            &&& self.after_allocate(requests[0].0, requests[0].1).all_served(requests.drop_first())
        }
    }

    /// The state after the blocks of `order` are released, in order.
    pub open spec fn after_deallocate_all(self, order: Seq<Block>) -> BumpState
        decreases order.len(),
    {
        if order.len() == 0 {
            self
        } else {
            self.after_deallocate(order[0]).after_deallocate_all(order.drop_first())
        }
    }

    /// Every block of `order` is live when its turn to be released comes.
    pub open spec fn all_live(self, order: Seq<Block>) -> bool
        decreases order.len(),
    {
        order.len() == 0 || {
            &&& self.live.contains(order[0])
            &&& self.after_deallocate(order[0]).all_live(order.drop_first())
        }
    }

    /// A request leaves a well-formed state well formed.
    pub proof fn lemma_allocate_keeps_wf(self, size: usize, align: usize)
        requires
            self.wf(),
            is_pow2(align as int),
        ensures
            self.after_allocate(size, align).wf(),
    {
        lemma_power_of_two_positive(align as int);
        lemma_align_up_is_least_multiple(self.next as int, align as int);
    }

    /// Releasing a live block leaves a well-formed state well formed.
    pub proof fn lemma_deallocate_keeps_wf(self, block: Block)
        requires
            self.wf(),
            self.live.contains(block),
        ensures
            self.after_deallocate(block).wf(),
            self.after_deallocate(block).live.len() == self.live.len() - 1,
    {
    }

    /// A block that a request was served with lies in the arena, and apart
    /// from every block that was live before.
    pub proof fn lemma_served_block_in_arena(self, size: usize, align: usize)
        requires
            self.wf(),
            is_pow2(align as int),
            self.allocate_result(size, align) is Ok,
        ensures
            self.heap_start <= self.allocate_result(size, align).unwrap(),
            self.allocate_result(size, align).unwrap() + size <= self.heap_end,
            size > 0 ==> self.allocate_result(size, align).unwrap() < self.heap_end,
            forall|i: int|
                0 <= i < self.live.len() ==> ranges_disjoint(
                    self.allocate_result(size, align).unwrap() as int,
                    size as int,
                    (#[trigger] self.live[i]).addr as int,
                    self.live[i].size as int,
                ),
    {
        lemma_power_of_two_positive(align as int);
        lemma_align_up_is_least_multiple(self.next as int, align as int);
    }

    /// Any two live blocks of a well-formed state lie in the arena and share
    /// no address.
    pub proof fn lemma_live_blocks_disjoint(self, i: int, j: int)
        requires
            self.wf(),
            0 <= i < self.live.len(),
            0 <= j < self.live.len(),
            i != j,
        ensures
            self.heap_start <= self.live[i].addr,
            self.live[i].addr + self.live[i].size <= self.heap_end,
            ranges_disjoint(
                self.live[i].addr as int,
                self.live[i].size as int,
                self.live[j].addr as int,
                self.live[j].size as int,
            ),
    {
        if i < j {
            assert(ranges_disjoint(
                self.live[i].addr as int,
                self.live[i].size as int,
                self.live[j].addr as int,
                self.live[j].size as int,
            ));
        } else {
            assert(ranges_disjoint(
                self.live[j].addr as int,
                self.live[j].size as int,
                self.live[i].addr as int,
                self.live[i].size as int,
            ));
        }
    }

    /// Requests that are all served add one live block each.
    pub proof fn lemma_served_requests_are_live(self, requests: Seq<(usize, usize)>)
        requires
            self.wf(),
            self.all_served(requests),
        ensures
            self.after_allocate_all(requests).wf(),
            self.after_allocate_all(requests).live.len() == self.live.len() + requests.len(),
            self.after_allocate_all(requests).heap_start == self.heap_start,
        decreases requests.len(),
    {
        if requests.len() > 0 {
            self.lemma_allocate_keeps_wf(requests[0].0, requests[0].1);
            self.after_allocate(requests[0].0, requests[0].1).lemma_served_requests_are_live(
                requests.drop_first(),
            );
        }
    }

    /// While the first `k` blocks of `order` are released, the cursor stays
    /// where it is as long as a block remains live, and returns to the start
    /// of the arena with the release of the last one.
    pub proof fn lemma_release_prefix(self, order: Seq<Block>, k: int)
        requires
            self.wf(),
            self.all_live(order),
            0 <= k <= order.len(),
        ensures
            self.after_deallocate_all(order.take(k)).wf(),
            self.after_deallocate_all(order.take(k)).heap_start == self.heap_start,
            self.after_deallocate_all(order.take(k)).live.len() == self.live.len() - k,
            k < self.live.len() ==> self.after_deallocate_all(order.take(k)).next == self.next,
            k == self.live.len() ==> self.after_deallocate_all(order.take(k)).next
                == self.heap_start,
        decreases k,
    {
        if k == 0 {
            assert(order.take(0).len() == 0);
        } else {
            let rest = order.drop_first();
            let after = self.after_deallocate(order[0]);
            self.lemma_deallocate_keeps_wf(order[0]);
            assert(order.take(k).drop_first() =~= rest.take(k - 1));
            assert(order.take(k)[0] == order[0]);
            after.lemma_release_prefix(rest, k - 1);
        }
    }

    /// From a state with nothing live, `n` served requests followed by the
    /// release of the `n` blocks, in any order, leave nothing live and the
    /// cursor at the start of the arena; the cursor moves back with the last
    /// release and with none before it.
    pub proof fn lemma_releasing_all_resets_once(
        self,
        requests: Seq<(usize, usize)>,
        order: Seq<Block>,
        k: int,
    )
        requires
            self.wf(),
            self.live.len() == 0,
            self.all_served(requests),
            self.after_allocate_all(requests).all_live(order),
            order.len() == requests.len(),
            0 <= k <= order.len(),
        ensures
            self.after_allocate_all(requests).live.len() == requests.len(),
            self.after_allocate_all(requests).after_deallocate_all(order.take(k)).live.len()
                == requests.len() - k,
            k < order.len() ==> self.after_allocate_all(requests).after_deallocate_all(
                order.take(k),
            ).next == self.after_allocate_all(requests).next,
            self.after_allocate_all(requests).after_deallocate_all(order).live.len() == 0,
            self.after_allocate_all(requests).after_deallocate_all(order).next == self.heap_start,
    {
        let full = self.after_allocate_all(requests);
        self.lemma_served_requests_are_live(requests);
        full.lemma_release_prefix(order, k);
        full.lemma_release_prefix(order, order.len() as int);
        assert(order.take(order.len() as int) =~= order);
    }
}

/// The bump allocator: the bounds of its arena, the cursor, and the count
/// of live blocks.
pub struct BumpAllocator {
    heap_start: usize,
    heap_end: usize,
    next: usize,
    allocations: usize,
    live: Ghost<Seq<Block>>,
}

impl View for BumpAllocator {
    type V = BumpState;

    closed spec fn view(&self) -> BumpState {
        BumpState {
            heap_start: self.heap_start,
            heap_end: self.heap_end,
            next: self.next,
            live: self.live@,
        }
    }
}

impl BumpAllocator {
    /// The state is well formed and the counter agrees with the live blocks.
    pub closed spec fn wf(&self) -> bool {
        &&& self@.wf()
        &&& self.allocations == self.live@.len()
    }

    /// A well-formed allocator has a well-formed state: the cursor lies in
    /// the arena, and the live blocks lie apart below it.
    pub proof fn lemma_wf_state(&self)
        requires
            self.wf(),
        ensures
            self@.wf(),
            self@.live.len() <= usize::MAX,
    {
    }

    /// An allocator with an empty arena at address 0.
    pub fn new() -> (allocator: Self)
        ensures
            allocator.wf(),
            allocator@ == (BumpState { heap_start: 0, heap_end: 0, next: 0, live: Seq::empty() }),
    {
        BumpAllocator { heap_start: 0, heap_end: 0, next: 0, allocations: 0, live: Ghost(Seq::empty()) }
    }

    /// Takes `[heap_start, heap_start + heap_size)` as the arena.
    pub fn init(&mut self, heap_start: usize, heap_size: usize)
        requires
            old(self).wf(),
            old(self)@.live.len() == 0,
            heap_start + heap_size <= usize::MAX,
        ensures
            final(self).wf(),
            final(self)@ == (BumpState {
                heap_start,
                heap_end: (heap_start + heap_size) as usize,
                next: heap_start,
                live: Seq::empty(),
            }),
    {
        self.heap_start = heap_start;
        self.heap_end = heap_start + heap_size;
        self.next = heap_start;
        assert(self.live@ =~= Seq::empty());
    }

    /// Serves a request of `size` bytes at a multiple of `align` from the
    /// cursor. The request fails with `Overflow` when its end would not fit
    /// in an address (or the count of live blocks in its counter), and with
    /// `OutOfMemory` when its end lies beyond the arena; a failed request
    /// changes nothing.
    pub fn allocate(&mut self, size: usize, align: usize) -> (result: Result<usize, AllocError>)
        requires
            old(self).wf(),
            is_pow2(align as int),
        ensures
            final(self).wf(),
            result == old(self)@.allocate_result(size, align),
            final(self)@ == old(self)@.after_allocate(size, align),
            result matches Ok(start) ==> {
                &&& start as int % align as int == 0
                &&& old(self)@.heap_start <= old(self)@.next <= start
                &&& start + size <= old(self)@.heap_end
                &&& size > 0 ==> start < old(self)@.heap_end
                &&& forall|i: int|
                    0 <= i < old(self)@.live.len() ==> ranges_disjoint(
                        start as int,
                        size as int,
                        (#[trigger] old(self)@.live[i]).addr as int,
                        old(self)@.live[i].size as int,
                    )
            },
    {
        proof {
            lemma_power_of_two_positive(align as int);
            lemma_align_up_is_least_multiple(self.next as int, align as int);
        }
        let alloc_start = match checked_align_up(self.next, align) {
            Some(start) => start,
            None => { return Err(AllocError::Overflow); },
        };
        let alloc_end = match alloc_start.checked_add(size) {
            Some(end) => end,
            None => { return Err(AllocError::Overflow); },
        };
        if alloc_end > self.heap_end {
            Err(AllocError::OutOfMemory)
        } else if self.allocations == usize::MAX {
            Err(AllocError::Overflow)
        } else {
            self.next = alloc_end;
            self.allocations += 1;
            self.live = Ghost(self.live@.push(Block { addr: alloc_start, size, align }));
            Ok(alloc_start)
        }
    }

    /// Releases a live block. Only the count of live blocks changes, until
    /// the last one goes: then the whole arena is free again.
    pub fn deallocate(&mut self, addr: usize, size: usize, align: usize)
        requires
            old(self).wf(),
            old(self)@.live.contains(Block { addr, size, align }),
        ensures
            final(self).wf(),
            final(self)@ == old(self)@.after_deallocate(Block { addr, size, align }),
    {
        let ghost index = self.live@.index_of(Block { addr, size, align });
        self.allocations -= 1;
        self.live = Ghost(self.live@.remove(index));
        if self.allocations == 0 {
            self.next = self.heap_start;
        }
    }

    /// First address of the arena.
    pub fn heap_start(&self) -> (addr: usize)
        ensures
            addr == self@.heap_start,
    {
        self.heap_start
    }

    /// First address past the arena.
    pub fn heap_end(&self) -> (addr: usize)
        ensures
            addr == self@.heap_end,
    {
        self.heap_end
    }

    /// The cursor: where the next request is served from.
    pub fn next(&self) -> (addr: usize)
        ensures
            addr == self@.next,
    {
        self.next
    }

    /// How many blocks are live.
    pub fn allocations(&self) -> (count: usize)
        requires
            self.wf(),
        ensures
            count == self@.live.len(),
    {
        self.allocations
    }
}

impl HeapAllocator for BumpAllocator {
    open spec fn inv(&self) -> bool {
        self.wf()
    }

    open spec fn heap_range(&self) -> (usize, usize) {
        (self@.heap_start, self@.heap_end)
    }

    open spec fn live_blocks(&self) -> Seq<Block> {
        self@.live
    }

    fn allocate(&mut self, size: usize, align: usize) -> (result: Result<usize, AllocError>)
        ensures
            result == old(self)@.allocate_result(size, align),
            final(self)@ == old(self)@.after_allocate(size, align),
    {
        BumpAllocator::allocate(self, size, align)
    }

    fn deallocate(&mut self, addr: usize, size: usize, align: usize)
        ensures
            final(self)@ == old(self)@.after_deallocate(Block { addr, size, align }),
    {
        BumpAllocator::deallocate(self, addr, size, align)
    }
}

} // verus!
