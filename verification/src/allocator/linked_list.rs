//! A free-list allocator: free regions are kept in a list, newest first; a
//! request takes the first region it fits in and gives back what is left
//! behind it.

use vstd::prelude::*;
use vstd::arithmetic::power2::is_pow2;
use crate::allocator::align::{
    align_up_spec, checked_align_up, is_aligned, lemma_align_up_is_least_multiple,
    lemma_align_up_keeps_exactly_multiples, lemma_aligned_to_divisor,
    lemma_power_of_two_multiple_of_eight, lemma_power_of_two_positive,
};
use crate::allocator::{ranges_disjoint, AllocError, Block, HeapAllocator};

verus! {

/// The least size of a free region: room for the record of one.
pub const NODE_SIZE: usize = 16;

/// The alignment that the start of a free region keeps.
pub const NODE_ALIGN: usize = 8;

/// A free region: `size` bytes from `addr` on.
#[derive(Clone, Copy, Debug, PartialEq, Eq, Structural)]
pub struct ListNode {
    pub addr: usize,
    pub size: usize,
}

impl ListNode {
    /// The region ends at an address.
    pub open spec fn wf(self) -> bool {
        self.addr + self.size <= usize::MAX
    }

    /// The free region of `size` bytes at `addr`.
    pub fn new(addr: usize, size: usize) -> (node: Self)
        ensures
            node == (ListNode { addr, size }),
    {
        ListNode { addr, size }
    }

    /// The first address of the region.
    pub fn start_addr(&self) -> (addr: usize)
        ensures
            addr == self.addr,
    {
        self.addr
    }

    /// The first address past the region.
    pub fn end_addr(&self) -> (addr: usize)
        requires
            self.wf(),
        ensures
            addr == self.addr + self.size,
    {
        self.addr + self.size
    }
}

/// The size and alignment that a request is served with: the alignment at
/// least `NODE_ALIGN`, the size a multiple of that alignment and at least
/// `NODE_SIZE`, so that the block can become a free region again. `None` where
/// the rounded size is no `usize`.
pub open spec fn size_align_spec(size: usize, align: usize) -> Option<(usize, usize)> {
    let align = if align < NODE_ALIGN {
        NODE_ALIGN
    } else {
        align
    };
    let padded = align_up_spec(size as int, align as int);
    if padded > usize::MAX {
        None
    } else if padded < NODE_SIZE {
        Some((NODE_SIZE, align))
    } else {
        Some((padded as usize, align))
    }
}

/// Where a request of `size` bytes at a multiple of `align` starts in
/// `region`: at the first such multiple, if the request ends inside the
/// region and leaves behind it either nothing or room for a free region.
pub open spec fn region_fit(region: ListNode, size: usize, align: usize) -> Option<usize> {
    let start = align_up_spec(region.addr as int, align as int);
    let excess = region.addr + region.size - (start + size);
    if excess < 0 || 0 < excess < NODE_SIZE {
        None
    } else {
        Some(start as usize)
    }
}

/// A rounded request is no smaller than the request, its alignment is a
/// power of two and a multiple of both `NODE_ALIGN` and the alignment asked
/// for, and its size is a multiple of `NODE_ALIGN` and at least `NODE_SIZE`.
pub proof fn lemma_size_align_rounds_up(size: usize, align: usize)
    requires
        is_pow2(align as int),
    ensures
        size_align_spec(size, align) matches Some((rounded, align2)) ==> {
            &&& is_pow2(align2 as int)
            &&& is_aligned(align2 as int, NODE_ALIGN as int)
            &&& is_aligned(align2 as int, align as int)
            &&& is_aligned(rounded as int, NODE_ALIGN as int)
            &&& rounded >= NODE_SIZE
            &&& rounded >= size
        },
{
    lemma_eight_is_power_of_two();
    lemma_power_of_two_positive(align as int);
    let align2 = if align < NODE_ALIGN {
        NODE_ALIGN
    } else {
        align
    };
    lemma_power_of_two_multiple_of_eight(align2 as int);
    lemma_align_up_is_least_multiple(size as int, align2 as int);
    let padded = align_up_spec(size as int, align2 as int);
    lemma_aligned_to_divisor(padded, align2 as int, NODE_ALIGN as int);
    if align < NODE_ALIGN {
        assert(align == 1 || align == 2 || align == 4) by {
            reveal_with_fuel(is_pow2, 4);
        }
        assert(8int % 1 == 0 && 8int % 2 == 0 && 8int % 4 == 0);
    } else {
        vstd::arithmetic::div_mod::lemma_mod_self_0(align as int);
    }
}

/// The abstract state of a free-list allocator.
pub struct FreeListState {
    pub heap_start: usize,
    pub heap_end: usize,
    /// The free regions, newest first.
    pub free: Seq<ListNode>,
    /// The blocks handed out and not yet released, oldest first.
    pub live: Seq<Block>,
}

/// The number of bytes that a block occupies: its size as `size_align_spec`
/// rounds it.
pub open spec fn extent(block: Block) -> int {
    match size_align_spec(block.size, block.align) {
        Some((size, _)) => size as int,
        None => 0,
    }
}

/// Two free regions share no address.
pub open spec fn nodes_disjoint(a: ListNode, b: ListNode) -> bool {
    ranges_disjoint(a.addr as int, a.size as int, b.addr as int, b.size as int)
}

/// Two blocks share no address, each taken with all the bytes it occupies.
pub open spec fn blocks_disjoint(a: Block, b: Block) -> bool {
    ranges_disjoint(a.addr as int, extent(a), b.addr as int, extent(b))
}

/// A free region shares no address with a block and the bytes it occupies.
pub open spec fn node_block_disjoint(a: ListNode, b: Block) -> bool {
    ranges_disjoint(a.addr as int, a.size as int, b.addr as int, extent(b))
}

impl FreeListState {
    /// A free region lies in the heap, starts at a multiple of `NODE_ALIGN`
    /// and holds at least `NODE_SIZE` bytes.
    pub open spec fn free_node_ok(self, node: ListNode) -> bool {
        &&& node.addr as int % NODE_ALIGN as int == 0
        &&& node.size >= NODE_SIZE
        &&& self.heap_start <= node.addr
        &&& node.addr + node.size <= self.heap_end
    }

    /// A live block was asked for with a power of two as alignment, starts at
    /// a multiple of its rounded alignment and lies in the heap with all the
    /// bytes it occupies.
    pub open spec fn live_block_ok(self, block: Block) -> bool {
        &&& is_pow2(block.align as int)
        &&& size_align_spec(block.size, block.align) matches Some((_, align))
        &&& block.addr as int % align as int == 0
        &&& self.heap_start <= block.addr
        &&& block.addr + extent(block) <= self.heap_end
    }

    /// Free regions and live blocks lie in the heap, and no two of them share
    /// an address.
    pub open spec fn wf(self) -> bool {
        &&& forall|i: int| 0 <= i < self.free.len() ==> self.free_node_ok(#[trigger] self.free[i])
        &&& forall|i: int| 0 <= i < self.live.len() ==> self.live_block_ok(#[trigger] self.live[i])
        &&& forall|i: int, j: int|
            0 <= i < self.free.len() && 0 <= j < self.free.len() && i != j ==> nodes_disjoint(
                #[trigger] self.free[i],
                #[trigger] self.free[j],
            )
        &&& forall|i: int, j: int|
            0 <= i < self.live.len() && 0 <= j < self.live.len() && i != j ==> blocks_disjoint(
                #[trigger] self.live[i],
                #[trigger] self.live[j],
            )
        &&& forall|i: int, j: int|
            0 <= i < self.free.len() && 0 <= j < self.live.len() ==> node_block_disjoint(
                #[trigger] self.free[i],
                #[trigger] self.live[j],
            )
    }

    /// The free region at `i` serves the request, and none before it does.
    pub open spec fn is_first_fit(self, i: int, size: usize, align: usize) -> bool {
        &&& 0 <= i < self.free.len()
        &&& region_fit(self.free[i], size, align) is Some
        &&& forall|j: int| 0 <= j < i ==> region_fit(#[trigger] self.free[j], size, align) is None
    }

    /// The place in the free list of the first region that serves the
    /// request.
    pub open spec fn first_fit(self, size: usize, align: usize) -> Option<int> {
        if exists|i: int| self.is_first_fit(i, size, align) {
            Some(choose|i: int| self.is_first_fit(i, size, align))
        } else {
            None
        }
    }

    /// What `allocate` answers in this state.
    pub open spec fn allocate_result(self, size: usize, align: usize) -> Result<usize, AllocError> {
        match size_align_spec(size, align) {
            None => Err(AllocError::Overflow),
            Some((size, align)) => match self.first_fit(size, align) {
                None => Err(AllocError::OutOfMemory),
                Some(i) => Ok(region_fit(self.free[i], size, align).unwrap()),
            },
        }
    }

    /// The state after `allocate`. A served request takes its region out of
    /// the free list, puts what the region holds behind the block at the
    /// head of the list, and is live. A failed request changes nothing.
    pub open spec fn after_allocate(self, size: usize, align: usize) -> FreeListState {
        match size_align_spec(size, align) {
            None => self,
            Some((rounded, align2)) => match self.first_fit(rounded, align2) {
                None => self,
                Some(i) => {
                    let region = self.free[i];
                    let start = region_fit(region, rounded, align2).unwrap();
                    let end = start + rounded;
                    let excess = region.addr + region.size - end;
                    let rest = self.free.remove(i);
                    FreeListState {
                        free: if excess > 0 {
                            rest.insert(0, ListNode { addr: end as usize, size: excess as usize })
                        } else {
                            rest
                        },
                        live: self.live.push(Block { addr: start, size, align }),
                        ..self
                    }
                },
            },
        }
    }

    /// The state after `block` is released: the bytes it occupies are a free
    /// region at the head of the list.
    pub open spec fn after_deallocate(self, block: Block) -> FreeListState {
        FreeListState {
            free: self.free.insert(
                0,
                ListNode { addr: block.addr, size: extent(block) as usize },
            ),
            live: self.live.remove(self.live.index_of(block)),
            ..self
        }
    }

    /// Without one of its free regions, a well-formed state is well formed.
    pub proof fn lemma_without_free(self, i: int)
        requires
            self.wf(),
            0 <= i < self.free.len(),
        ensures
            (FreeListState { free: self.free.remove(i), ..self }).wf(),
    {
        let rest = self.free.remove(i);
        assert forall|k: int| 0 <= k < rest.len() implies rest[k] == self.free[if k < i {
            k
        } else {
            k + 1
        }] by {}
    }

    /// With one more free region, in the heap and apart from all the state
    /// holds, a well-formed state is well formed.
    pub proof fn lemma_with_free(self, node: ListNode)
        requires
            self.wf(),
            self.free_node_ok(node),
            forall|i: int| 0 <= i < self.free.len() ==> nodes_disjoint(node, #[trigger] self.free[i]),
            forall|j: int|
                0 <= j < self.live.len() ==> node_block_disjoint(node, #[trigger] self.live[j]),
        ensures
            (FreeListState { free: self.free.insert(0, node), ..self }).wf(),
    {
        let grown = self.free.insert(0, node);
        assert forall|k: int| 1 <= k < grown.len() implies grown[k] == self.free[k - 1] by {}
        assert(grown[0] == node);
    }

    /// With one more live block, in the heap and apart from all the state
    /// holds, a well-formed state is well formed.
    pub proof fn lemma_with_live(self, block: Block)
        requires
            self.wf(),
            self.live_block_ok(block),
            forall|i: int|
                0 <= i < self.free.len() ==> node_block_disjoint(#[trigger] self.free[i], block),
            forall|j: int| 0 <= j < self.live.len() ==> blocks_disjoint(block, #[trigger] self.live[j]),
        ensures
            (FreeListState { live: self.live.push(block), ..self }).wf(),
    {
    }

    /// Without one of its live blocks, a well-formed state is well formed.
    pub proof fn lemma_without_live(self, j: int)
        requires
            self.wf(),
            0 <= j < self.live.len(),
        ensures
            (FreeListState { live: self.live.remove(j), ..self }).wf(),
    {
        let rest = self.live.remove(j);
        assert forall|k: int| 0 <= k < rest.len() implies rest[k] == self.live[if k < j {
            k
        } else {
            k + 1
        }] by {}
    }

    /// A request leaves a well-formed state well formed. The block that it is
    /// served with starts at a multiple of the alignment asked for, lies in
    /// the heap, and shares no address with a block that was live before.
    pub proof fn lemma_allocate_keeps_wf(self, size: usize, align: usize)
        requires
            self.wf(),
            is_pow2(align as int),
        ensures
            self.after_allocate(size, align).wf(),
            self.after_allocate(size, align).heap_start == self.heap_start,
            self.after_allocate(size, align).heap_end == self.heap_end,
            self.allocate_result(size, align) is Err ==> self.after_allocate(size, align) == self,
            self.allocate_result(size, align) matches Ok(start) ==> {
                &&& is_aligned(start as int, align as int)
                &&& self.heap_start <= start
                &&& start + size <= self.heap_end
                &&& start < self.heap_end
                &&& self.after_allocate(size, align).live == self.live.push(
                    Block { addr: start, size, align },
                )
                &&& forall|j: int|
                    0 <= j < self.live.len() ==> blocks_disjoint(
                        Block { addr: start, size, align },
                        #[trigger] self.live[j],
                    )
            },
    {
        lemma_size_align_rounds_up(size, align);
        if let Some((rounded, align2)) = size_align_spec(size, align) {
            if let Some(i) = self.first_fit(rounded, align2) {
                assert(self.is_first_fit(i, rounded, align2));
                let region = self.free[i];
                let start = region_fit(region, rounded, align2).unwrap();
                let end = start + rounded;
                let excess = region.addr + region.size - end;
                let block = Block { addr: start, size, align };
                lemma_power_of_two_positive(align2 as int);
                lemma_power_of_two_positive(align as int);
                lemma_align_up_is_least_multiple(region.addr as int, align2 as int);
                lemma_aligned_to_divisor(start as int, align2 as int, NODE_ALIGN as int);
                lemma_aligned_to_divisor(start as int, align2 as int, align as int);
                assert(self.free_node_ok(region));
                assert(extent(block) == rounded);

                let s1 = FreeListState { free: self.free.remove(i), ..self };
                self.lemma_without_free(i);
                assert forall|k: int| 0 <= k < s1.free.len() implies nodes_disjoint(
                    region,
                    #[trigger] s1.free[k],
                ) by {
                    let k0 = if k < i {
                        k
                    } else {
                        k + 1
                    };
                    assert(s1.free[k] == self.free[k0]);
                    assert(nodes_disjoint(self.free[i], self.free[k0]));
                }
                assert forall|j: int| 0 <= j < self.live.len() implies node_block_disjoint(
                    region,
                    #[trigger] self.live[j],
                ) by {
                    assert(node_block_disjoint(self.free[i], self.live[j]));
                }
                let s2 = if excess > 0 {
                    let rest = ListNode { addr: end as usize, size: excess as usize };
                    s1.lemma_with_free(rest);
                    FreeListState { free: s1.free.insert(0, rest), ..s1 }
                } else {
                    s1
                };
                assert forall|k: int| 0 <= k < s2.free.len() implies node_block_disjoint(
                    #[trigger] s2.free[k],
                    block,
                ) by {
                    if excess > 0 && k > 0 {
                        assert(s2.free[k] == s1.free[k - 1]);
                        assert(nodes_disjoint(region, s1.free[k - 1]));
                    } else if excess <= 0 {
                        assert(nodes_disjoint(region, s1.free[k]));
                    }
                }
                assert forall|j: int| 0 <= j < s2.live.len() implies blocks_disjoint(
                    block,
                    #[trigger] s2.live[j],
                ) by {
                    assert(node_block_disjoint(region, self.live[j]));
                }
                s2.lemma_with_live(block);
                assert(self.after_allocate(size, align) == FreeListState {
                    live: s2.live.push(block),
                    ..s2
                });
            }
        }
    }

    /// Releasing a live block leaves a well-formed state well formed.
    pub proof fn lemma_deallocate_keeps_wf(self, block: Block)
        requires
            self.wf(),
            self.live.contains(block),
        ensures
            self.after_deallocate(block).wf(),
            self.after_deallocate(block).heap_start == self.heap_start,
            self.after_deallocate(block).heap_end == self.heap_end,
    {
        let j = self.live.index_of(block);
        assert(self.live_block_ok(self.live[j]));
        lemma_size_align_rounds_up(block.size, block.align);
        let (rounded, align2) = size_align_spec(block.size, block.align).unwrap();
        lemma_power_of_two_positive(align2 as int);
        lemma_aligned_to_divisor(block.addr as int, align2 as int, NODE_ALIGN as int);
        let node = ListNode { addr: block.addr, size: extent(block) as usize };
        let s1 = FreeListState { live: self.live.remove(j), ..self };
        self.lemma_without_live(j);
        assert forall|i: int| 0 <= i < s1.free.len() implies nodes_disjoint(
            node,
            #[trigger] s1.free[i],
        ) by {
            assert(node_block_disjoint(self.free[i], self.live[j]));
        }
        assert forall|k: int| 0 <= k < s1.live.len() implies node_block_disjoint(
            node,
            #[trigger] s1.live[k],
        ) by {
            let k0 = if k < j {
                k
            } else {
                k + 1
            };
            assert(s1.live[k] == self.live[k0]);
            assert(blocks_disjoint(self.live[j], self.live[k0]));
        }
        s1.lemma_with_free(node);
    }

    /// Every live block of a well-formed state lies in the heap, and any two
    /// of them share no address.
    pub proof fn lemma_live_blocks_disjoint(self, i: int, j: int)
        requires
            self.wf(),
            0 <= i < self.live.len(),
            0 <= j < self.live.len(),
            i != j,
        ensures
            self.heap_start <= self.live[i].addr,
            self.live[i].addr + self.live[i].size <= self.heap_end,
            self.live[i].addr < self.heap_end,
            ranges_disjoint(
                self.live[i].addr as int,
                self.live[i].size as int,
                self.live[j].addr as int,
                self.live[j].size as int,
            ),
    {
        assert(self.live_block_ok(self.live[i]));
        assert(self.live_block_ok(self.live[j]));
        assert(blocks_disjoint(self.live[i], self.live[j]));
        lemma_size_align_rounds_up(self.live[i].size, self.live[i].align);
        lemma_size_align_rounds_up(self.live[j].size, self.live[j].align);
    }

    /// Two live blocks that start at different addresses share no address.
    pub proof fn lemma_live_blocks_apart(self, a: Block, b: Block)
        requires
            self.wf(),
            self.live.contains(a),
            self.live.contains(b),
            a.addr != b.addr,
        ensures
            self.live_block_ok(a),
            self.live_block_ok(b),
            blocks_disjoint(a, b),
    {
        let i = self.live.index_of(a);
        let j = self.live.index_of(b);
        assert(self.live_block_ok(self.live[i]));
        assert(self.live_block_ok(self.live[j]));
        assert(blocks_disjoint(self.live[i], self.live[j]));
    }

    /// A block that has just been released serves the same request again:
    /// the request gets the address of the block, and the free regions are
    /// then the ones from before the release.
    pub proof fn lemma_released_block_is_reused(self, block: Block)
        requires
            self.wf(),
            self.live.contains(block),
        ensures
            self.after_deallocate(block).allocate_result(block.size, block.align) == Ok::<
                usize,
                AllocError,
            >(block.addr),
            self.after_deallocate(block).after_allocate(block.size, block.align).free == self.free,
            self.after_deallocate(block).after_allocate(block.size, block.align).live
                == self.live.remove(self.live.index_of(block)).push(block),
    {
        let j = self.live.index_of(block);
        assert(self.live_block_ok(self.live[j]));
        lemma_size_align_rounds_up(block.size, block.align);
        let (rounded, align2) = size_align_spec(block.size, block.align).unwrap();
        lemma_power_of_two_positive(align2 as int);
        lemma_align_up_is_least_multiple(block.addr as int, align2 as int);
        let released = self.after_deallocate(block);
        let node = ListNode { addr: block.addr, size: rounded };
        assert(released.free[0] == node);
        assert(region_fit(node, rounded, align2) == Some(block.addr));
        assert(released.is_first_fit(0, rounded, align2));
        released.lemma_first_fit_is(0, rounded, align2);
        assert(released.free.remove(0) =~= self.free);
    }

    /// There is at most one first fit.
    pub proof fn lemma_first_fit_is(self, i: int, size: usize, align: usize)
        requires
            self.is_first_fit(i, size, align),
        ensures
            self.first_fit(size, align) == Some(i),
    {
        let k = choose|k: int| self.is_first_fit(k, size, align);
        if k < i {
            assert(region_fit(self.free[k], size, align) is None);
        } else if i < k {
            assert(region_fit(self.free[i], size, align) is None);
        }
    }
}

/// The order of the free list for regions stored with the head of the list
/// last.
spec fn head_first(stored: Seq<ListNode>) -> Seq<ListNode> {
    Seq::new(stored.len(), |i: int| stored[stored.len() - 1 - i])
}

/// A region stored last is the head of the list.
proof fn lemma_stored_last_is_head(stored: Seq<ListNode>, node: ListNode)
    ensures
        head_first(stored.push(node)) == head_first(stored).insert(0, node),
{
    assert(head_first(stored.push(node)) =~= head_first(stored).insert(0, node));
}

/// Taking a stored region out takes its place out of the list.
proof fn lemma_taken_out_of_list(stored: Seq<ListNode>, k: int)
    requires
        0 <= k < stored.len(),
    ensures
        head_first(stored.remove(k)) == head_first(stored).remove(stored.len() - 1 - k),
{
    assert(head_first(stored.remove(k)) =~= head_first(stored).remove(stored.len() - 1 - k));
}

/// The free-list allocator: the list of its free regions, stored with the
/// head of the list last.
pub struct LinkedListAllocator {
    free: Vec<ListNode>,
    heap: Ghost<(usize, usize)>,
    live: Ghost<Seq<Block>>,
}

impl View for LinkedListAllocator {
    type V = FreeListState;

    closed spec fn view(&self) -> FreeListState {
        FreeListState {
            heap_start: self.heap@.0,
            heap_end: self.heap@.1,
            free: head_first(self.free@),
            live: self.live@,
        }
    }
}

impl LinkedListAllocator {
    /// The state of the allocator is well formed.
    pub open spec fn wf(&self) -> bool {
        self@.wf()
    }

    /// An allocator with no free region and an empty heap at address 0.
    pub fn new() -> (allocator: Self)
        ensures
            allocator.wf(),
            allocator@ == (FreeListState {
                heap_start: 0,
                heap_end: 0,
                free: Seq::empty(),
                live: Seq::empty(),
            }),
    {
        let allocator =
            LinkedListAllocator { free: Vec::new(), heap: Ghost((0, 0)), live: Ghost(Seq::empty()) };
        assert(allocator@.free =~= Seq::empty());
        allocator
    }

    /// Takes `[heap_start, heap_start + heap_size)` as the heap: one free
    /// region.
    pub fn init(&mut self, heap_start: usize, heap_size: usize)
        requires
            old(self)@.free.len() == 0,
            old(self)@.live.len() == 0,
            is_aligned(heap_start as int, NODE_ALIGN as int),
            heap_size >= NODE_SIZE,
            heap_start + heap_size <= usize::MAX,
        ensures
            final(self).wf(),
            final(self)@ == (FreeListState {
                heap_start,
                heap_end: (heap_start + heap_size) as usize,
                free: seq![ListNode { addr: heap_start, size: heap_size }],
                live: Seq::empty(),
            }),
    {
        proof {
            lemma_align_up_keeps_exactly_multiples(heap_start as int, NODE_ALIGN as int);
        }
        self.heap = Ghost((heap_start, (heap_start + heap_size) as usize));
        self.add_free_region(heap_start, heap_size);
        assert(self@.free =~= seq![ListNode { addr: heap_start, size: heap_size }]);
        assert(self.live@ =~= Seq::empty());
    }

    /// Whether the `size` bytes at `addr` can be a free region: rounding
    /// `addr` up to `NODE_ALIGN` leaves it where it is, which is so exactly
    /// for the multiples of `NODE_ALIGN`, and `size` is at least `NODE_SIZE`.
    pub fn holds_node(addr: usize, size: usize) -> (holds: bool)
        ensures
            holds == (align_up_spec(addr as int, NODE_ALIGN as int) == addr && size >= NODE_SIZE),
            holds == (is_aligned(addr as int, NODE_ALIGN as int) && size >= NODE_SIZE),
    {
        proof {
            lemma_eight_is_power_of_two();
            lemma_align_up_keeps_exactly_multiples(addr as int, NODE_ALIGN as int);
        }
        match checked_align_up(addr, NODE_ALIGN) {
            Some(aligned) => aligned == addr && size >= NODE_SIZE,
            None => false,
        }
    }

    /// Puts the region of `size` bytes at `addr` at the head of the free
    /// list. The region must be one that `holds_node` accepts.
    fn add_free_region(&mut self, addr: usize, size: usize)
        requires
            align_up_spec(addr as int, NODE_ALIGN as int) == addr,
            size >= NODE_SIZE,
        ensures
            final(self)@ == (FreeListState {
                free: old(self)@.free.insert(0, ListNode { addr, size }),
                ..old(self)@
            }),
    {
        proof {
            lemma_stored_last_is_head(self.free@, ListNode { addr, size });
        }
        self.free.push(ListNode::new(addr, size));
    }

    /// Whether `region` can serve a request, and from which address.
    pub fn alloc_from_region(region: &ListNode, size: usize, align: usize) -> (result: Result<
        usize,
        (),
    >)
        requires
            region.wf(),
            is_pow2(align as int),
        ensures
            result == match region_fit(*region, size, align) {
                Some(start) => Ok::<usize, ()>(start),
                None => Err::<usize, ()>(()),
            },
    {
        proof {
            lemma_power_of_two_positive(align as int);
            lemma_align_up_is_least_multiple(region.addr as int, align as int);
        }
        let alloc_start = match checked_align_up(region.start_addr(), align) {
            Some(start) => start,
            None => { return Err(()); },
        };
        let alloc_end = match alloc_start.checked_add(size) {
            Some(end) => end,
            None => { return Err(()); },
        };
        if alloc_end > region.end_addr() {
            return Err(());
        }
        let excess_size = region.end_addr() - alloc_end;
        if excess_size > 0 && excess_size < NODE_SIZE {
            return Err(());
        }
        Ok(alloc_start)
    }

    /// Rounds a request as `size_align_spec` says.
    pub fn size_align(size: usize, align: usize) -> (rounded: Option<(usize, usize)>)
        requires
            is_pow2(align as int),
        ensures
            rounded == size_align_spec(size, align),
    {
        let align = if align < NODE_ALIGN {
            NODE_ALIGN
        } else {
            align
        };
        proof {
            lemma_eight_is_power_of_two();
        }
        match checked_align_up(size, align) {
            Some(padded) => if padded < NODE_SIZE {
                Some((NODE_SIZE, align))
            } else {
                Some((padded, align))
            },
            None => None,
        }
    }

    /// Takes the first free region that serves the request out of the free
    /// list, and returns it with the address at which the request starts in
    /// it.
    pub fn find_region(&mut self, size: usize, align: usize) -> (found: Option<(ListNode, usize)>)
        requires
            old(self).wf(),
            is_pow2(align as int),
        ensures
            final(self).wf(),
            match old(self)@.first_fit(size, align) {
                Some(i) => {
                    &&& found == Some(
                        (
                            old(self)@.free[i],
                            region_fit(old(self)@.free[i], size, align).unwrap(),
                        ),
                    )
                    &&& final(self)@ == (FreeListState {
                        free: old(self)@.free.remove(i),
                        ..old(self)@
                    })
                },
                None => found.is_none() && final(self)@ == old(self)@,
            },
    {
        let count = self.free.len();
        let mut stored: usize = count;
        while stored > 0
            invariant
                *self == *old(self),
                self.wf(),
                is_pow2(align as int),
                count == self.free.len(),
                0 <= stored <= count,
                forall|j: int|
                    0 <= j < count - stored ==> region_fit(#[trigger] self@.free[j], size, align)
                        is None,
            decreases stored,
        {
            stored -= 1;
            let ghost i = count - 1 - stored;
            assert(self@.free_node_ok(self@.free[i]));
            if let Ok(alloc_start) = Self::alloc_from_region(&self.free[stored], size, align) {
                proof {
                    self@.lemma_first_fit_is(i, size, align);
                    self@.lemma_without_free(i);
                    lemma_taken_out_of_list(self.free@, stored as int);
                }
                let region = self.free.remove(stored);
                return Some((region, alloc_start));
            }
        }
        assert(old(self)@.first_fit(size, align) is None) by {
            if exists|k: int| old(self)@.is_first_fit(k, size, align) {
                let k = choose|k: int| old(self)@.is_first_fit(k, size, align);
                assert(region_fit(self@.free[k], size, align) is None);
            }
        }
        None
    }

    /// Serves a request of `size` bytes at a multiple of `align` from the
    /// first free region that it fits in, as rounded by `size_align`. The
    /// request fails with `Overflow` when its size cannot be rounded, and
    /// with `OutOfMemory` when no free region serves it; a failed request
    /// changes nothing.
    pub fn allocate(&mut self, size: usize, align: usize) -> (result: Result<usize, AllocError>)
        requires
            old(self).wf(),
            is_pow2(align as int),
        ensures
            final(self).wf(),
            result == old(self)@.allocate_result(size, align),
            final(self)@ == old(self)@.after_allocate(size, align),
            result matches Ok(start) ==> {
                &&& is_aligned(start as int, align as int)
                &&& old(self)@.heap_start <= start
                &&& start + size <= old(self)@.heap_end
                &&& start < old(self)@.heap_end
                &&& forall|j: int|
                    0 <= j < old(self)@.live.len() ==> blocks_disjoint(
                        Block { addr: start, size, align },
                        #[trigger] old(self)@.live[j],
                    )
            },
    {
        proof {
            old(self)@.lemma_allocate_keeps_wf(size, align);
            lemma_size_align_rounds_up(size, align);
        }
        let (rounded, align2) = match Self::size_align(size, align) {
            Some(request) => request,
            None => { return Err(AllocError::Overflow); },
        };
        match self.find_region(rounded, align2) {
            Some((region, alloc_start)) => {
                proof {
                    let i = old(self)@.first_fit(rounded, align2).unwrap();
                    assert(old(self)@.free_node_ok(old(self)@.free[i]));
                    lemma_power_of_two_positive(align2 as int);
                    lemma_align_up_is_least_multiple(region.addr as int, align2 as int);
                    lemma_aligned_to_divisor(alloc_start as int, align2 as int, NODE_ALIGN as int);
                }
                let alloc_end = alloc_start + rounded;
                let excess_size = region.end_addr() - alloc_end;
                if excess_size > 0 {
                    proof {
                        lemma_align_up_keeps_exactly_multiples(alloc_end as int, NODE_ALIGN as int);
                    }
                    self.add_free_region(alloc_end, excess_size);
                }
                self.live = Ghost(self.live@.push(Block { addr: alloc_start, size, align }));
                Ok(alloc_start)
            },
            None => Err(AllocError::OutOfMemory),
        }
    }

    /// Releases a live block: the bytes it occupies become the free region
    /// at the head of the list. Neighbouring free regions are not merged.
    pub fn deallocate(&mut self, addr: usize, size: usize, align: usize)
        requires
            old(self).wf(),
            old(self)@.live.contains(Block { addr, size, align }),
        ensures
            final(self).wf(),
            final(self)@ == old(self)@.after_deallocate(Block { addr, size, align }),
    {
        let ghost block = Block { addr, size, align };
        let ghost index = self.live@.index_of(block);
        proof {
            old(self)@.lemma_deallocate_keeps_wf(block);
            assert(self@.live_block_ok(self@.live[index]));
            lemma_size_align_rounds_up(size, align);
            let align2 = size_align_spec(size, align).unwrap().1;
            lemma_power_of_two_positive(align2 as int);
            lemma_aligned_to_divisor(addr as int, align2 as int, NODE_ALIGN as int);
        }
        if let Some((rounded, _)) = Self::size_align(size, align) {
            proof {
                lemma_align_up_keeps_exactly_multiples(addr as int, NODE_ALIGN as int);
            }
            self.add_free_region(addr, rounded);
        }
        self.live = Ghost(self.live@.remove(index));
    }

    /// The free regions, newest first.
    pub fn free_regions(&self) -> (regions: Vec<ListNode>)
        ensures
            regions@ == self@.free,
    {
        let count = self.free.len();
        let mut regions: Vec<ListNode> = Vec::new();
        let mut stored: usize = count;
        while stored > 0
            invariant
                count == self.free.len(),
                0 <= stored <= count,
                regions@ == self@.free.take(count - stored),
            decreases stored,
        {
            stored -= 1;
            regions.push(self.free[stored]);
            assert(self@.free.take(count - stored) =~= self@.free.take(count - stored - 1).push(
                self.free@[stored as int],
            ));
        }
        assert(self@.free.take(count as int) =~= self@.free);
        regions
    }
}

impl HeapAllocator for LinkedListAllocator {
    open spec fn inv(&self) -> bool {
        self.wf()
    }

    open spec fn heap_range(&self) -> (usize, usize) {
        (self@.heap_start, self@.heap_end)
    }

    open spec fn live_blocks(&self) -> Seq<Block> {
        self@.live
    }

    fn allocate(&mut self, size: usize, align: usize) -> (result: Result<usize, AllocError>)
        ensures
            result == old(self)@.allocate_result(size, align),
            final(self)@ == old(self)@.after_allocate(size, align),
    {
        proof {
            self@.lemma_allocate_keeps_wf(size, align);
            lemma_size_align_rounds_up(size, align);
        }
        let ghost before = self@;
        let result = LinkedListAllocator::allocate(self, size, align);
        proof {
            if let Ok(start) = result {
                assert forall|j: int| 0 <= j < before.live.len() implies ranges_disjoint(
                    start as int,
                    size as int,
                    (#[trigger] before.live[j]).addr as int,
                    before.live[j].size as int,
                ) by {
                    assert(before.live_block_ok(before.live[j]));
                    assert(blocks_disjoint(Block { addr: start, size, align }, before.live[j]));
                    lemma_size_align_rounds_up(before.live[j].size, before.live[j].align);
                }
            }
        }
        result
    }

    fn deallocate(&mut self, addr: usize, size: usize, align: usize)
        ensures
            final(self)@ == old(self)@.after_deallocate(Block { addr, size, align }),
    {
        proof {
            self@.lemma_deallocate_keeps_wf(Block { addr, size, align });
        }
        LinkedListAllocator::deallocate(self, addr, size, align)
    }
}

proof fn lemma_eight_is_power_of_two()
    ensures
        is_pow2(NODE_ALIGN as int),
{
    reveal_with_fuel(is_pow2, 4);
}

} // verus!
