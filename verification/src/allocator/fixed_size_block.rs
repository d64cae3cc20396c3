//! A segregated allocator: small requests are served in blocks of a few
//! fixed sizes, each size with a list of its free blocks, and everything
//! else by a free-list allocator behind them.

use vstd::prelude::*;
use vstd::arithmetic::power2::is_pow2;
use crate::allocator::align::{
    is_aligned, lemma_aligned_to_divisor, lemma_power_of_two_divides, lemma_power_of_two_positive,
};
use crate::allocator::linked_list::{
    blocks_disjoint, extent, lemma_size_align_rounds_up, size_align_spec, FreeListState,
    LinkedListAllocator, ListNode, NODE_ALIGN, NODE_SIZE,
};
use crate::allocator::{ranges_disjoint, AllocError, Block, HeapAllocator};

verus! {

/// The block sizes, ascending. Each is a power of two, and is also the
/// alignment of its blocks.
pub const BLOCK_SIZES: [usize; 9] = [8, 16, 32, 64, 128, 256, 512, 1024, 2048];

/// The larger of the size and the alignment of a request: what a block must
/// hold to serve it.
pub open spec fn required_block_size(size: usize, align: usize) -> usize {
    if size >= align {
        size
    } else {
        align
    }
}

/// `class` is the place in `BLOCK_SIZES` of the smallest block size that
/// serves the request.
pub open spec fn is_class_of(class: int, size: usize, align: usize) -> bool {
    &&& 0 <= class < BLOCK_SIZES@.len()
    &&& BLOCK_SIZES@[class] >= required_block_size(size, align)
    &&& forall|c: int| 0 <= c < class ==> #[trigger] BLOCK_SIZES@[c] < required_block_size(size, align)
}

/// The class of a request: `None` for a request that no block size serves.
pub open spec fn list_index_spec(size: usize, align: usize) -> Option<usize> {
    if exists|class: int| is_class_of(class, size, align) {
        Some((choose|class: int| is_class_of(class, size, align)) as usize)
    } else {
        None
    }
}

/// A request has at most one class.
pub proof fn lemma_class_is(class: int, size: usize, align: usize)
    requires
        is_class_of(class, size, align),
    ensures
        list_index_spec(size, align) == Some(class as usize),
{
    let other = choose|c: int| is_class_of(c, size, align);
    if other < class {
        assert(BLOCK_SIZES@[other] < required_block_size(size, align));
    } else if class < other {
        assert(BLOCK_SIZES@[class] < required_block_size(size, align));
    }
}

/// The class of a request is the place of a block size that holds both the
/// size and the alignment of the request, while the block size before it
/// does not.
pub proof fn lemma_class_serves(size: usize, align: usize)
    ensures
        list_index_spec(size, align) matches Some(class) ==> {
            &&& class < BLOCK_SIZES@.len()
            &&& is_class_of(class as int, size, align)
            &&& BLOCK_SIZES@[class as int] >= size
            &&& BLOCK_SIZES@[class as int] >= align
            &&& is_pow2(BLOCK_SIZES@[class as int] as int)
        },
        list_index_spec(size, align) is None ==> required_block_size(size, align) > 2048,
{
    reveal_with_fuel(is_pow2, 13);
    if !exists|class: int| is_class_of(class, size, align) {
        if required_block_size(size, align) <= 2048 {
            let need = required_block_size(size, align);
            let class: int = if need <= 8 {
                0
            } else if need <= 16 {
                1
            } else if need <= 32 {
                2
            } else if need <= 64 {
                3
            } else if need <= 128 {
                4
            } else if need <= 256 {
                5
            } else if need <= 512 {
                6
            } else if need <= 1024 {
                7
            } else {
                8
            };
            assert(is_class_of(class, size, align));
        }
    }
}

/// The class of a request, by the first block size that serves it.
pub fn list_index(size: usize, align: usize) -> (index: Option<usize>)
    ensures
        index == list_index_spec(size, align),
{
    let required = if size >= align {
        size
    } else {
        align
    };
    let mut index: usize = 0;
    while index < BLOCK_SIZES.len()
        invariant
            0 <= index <= BLOCK_SIZES@.len(),
            required == required_block_size(size, align),
            forall|c: int| 0 <= c < index ==> #[trigger] BLOCK_SIZES@[c] < required,
        decreases BLOCK_SIZES@.len() - index,
    {
        if BLOCK_SIZES[index] >= required {
            proof {
                lemma_class_is(index as int, size, align);
            }
            return Some(index);
        }
        index += 1;
    }
    proof {
        if exists|class: int| is_class_of(class, size, align) {
            let class = choose|class: int| is_class_of(class, size, align);
            assert(BLOCK_SIZES@[class] < required);
        }
    }
    None
}

/// A block of class `class` at `addr`, as the allocator behind the lists
/// served it.
pub open spec fn class_block(class: int, addr: usize) -> Block {
    Block { addr, size: BLOCK_SIZES@[class], align: BLOCK_SIZES@[class] }
}

/// What the allocator behind the lists was asked for to serve `block`: a
/// block of its class, or, for a request without a class, the request
/// itself.
pub open spec fn backing(block: Block) -> Block {
    match list_index_spec(block.size, block.align) {
        Some(class) => class_block(class as int, block.addr),
        None => block,
    }
}

/// A request or a release, for statements about several in a row.
pub enum Operation {
    Allocate { size: usize, align: usize },
    Deallocate { block: Block },
}

impl Operation {
    /// The class of the request, or of the block that is released.
    pub open spec fn class(self) -> Option<usize> {
        match self {
            Operation::Allocate { size, align } => list_index_spec(size, align),
            Operation::Deallocate { block } => list_index_spec(block.size, block.align),
        }
    }
}

/// The abstract state of a segregated allocator.
pub struct SizeClassState {
    /// For each class the addresses of its free blocks, the head of the list
    /// last.
    pub lists: Seq<Seq<usize>>,
    /// The allocator behind the lists. To it, every block of a class is
    /// live, free or not.
    pub fallback: FreeListState,
    /// The blocks handed out and not yet released, oldest first.
    pub live: Seq<Block>,
}

impl SizeClassState {
    /// `lists[class][k]` is a block in a list.
    pub open spec fn listed(self, class: int, k: int) -> bool {
        0 <= class < self.lists.len() && 0 <= k < self.lists[class].len()
    }

    /// There is a list for each class; every block in a list and every live
    /// block is live in the allocator behind the lists; and no two of them
    /// start at the same address.
    pub open spec fn wf(self) -> bool {
        &&& self.lists.len() == BLOCK_SIZES@.len()
        &&& self.fallback.wf()
        &&& forall|class: int, k: int|
            self.listed(class, k) ==> self.fallback.live.contains(
                class_block(class, #[trigger] self.lists[class][k]),
            )
        &&& forall|j: int|
            0 <= j < self.live.len() ==> is_pow2((#[trigger] self.live[j]).align as int)
                && self.fallback.live.contains(backing(self.live[j]))
        &&& forall|c1: int, k1: int, c2: int, k2: int|
            self.listed(c1, k1) && self.listed(c2, k2) && (c1 != c2 || k1 != k2)
                ==> #[trigger] self.lists[c1][k1] != #[trigger] self.lists[c2][k2]
        &&& forall|i: int, j: int|
            0 <= i < self.live.len() && 0 <= j < self.live.len() && i != j ==> (
            #[trigger] self.live[i]).addr != (#[trigger] self.live[j]).addr
        &&& forall|class: int, k: int, j: int|
            self.listed(class, k) && 0 <= j < self.live.len() ==> #[trigger] self.lists[class][k]
                != (#[trigger] self.live[j]).addr
    }

    /// What `allocate` answers in this state.
    pub open spec fn allocate_result(self, size: usize, align: usize) -> Result<usize, AllocError> {
        match list_index_spec(size, align) {
            Some(class) => if self.lists[class as int].len() > 0 {
                Ok(self.lists[class as int].last())
            } else {
                self.fallback.allocate_result(BLOCK_SIZES@[class as int], BLOCK_SIZES@[class as int])
            },
            None => self.fallback.allocate_result(size, align),
        }
    }

    /// The state after `allocate`. A request with a class takes the head of
    /// the list of its class; where that list is empty it is served by the
    /// allocator behind the lists with a new block of the class, and a
    /// request without a class is served by that allocator as it stands. A
    /// failed request changes nothing.
    pub open spec fn after_allocate(self, size: usize, align: usize) -> SizeClassState {
        match self.allocate_result(size, align) {
            Err(_) => self,
            Ok(addr) => {
                let live = self.live.push(Block { addr, size, align });
                match list_index_spec(size, align) {
                    Some(class) => if self.lists[class as int].len() > 0 {
                        SizeClassState {
                            lists: self.lists.update(
                                class as int,
                                self.lists[class as int].drop_last(),
                            ),
                            live,
                            ..self
                        }
                    } else {
                        SizeClassState {
                            fallback: self.fallback.after_allocate(
                                BLOCK_SIZES@[class as int],
                                BLOCK_SIZES@[class as int],
                            ),
                            live,
                            ..self
                        }
                    },
                    None => SizeClassState {
                        fallback: self.fallback.after_allocate(size, align),
                        live,
                        ..self
                    },
                }
            },
        }
    }

    /// The state after `block` is released: a block with a class becomes the
    /// head of the list of its class, and a block without a class goes back
    /// to the allocator behind the lists.
    pub open spec fn after_deallocate(self, block: Block) -> SizeClassState {
        let live = self.live.remove(self.live.index_of(block));
        match list_index_spec(block.size, block.align) {
            Some(class) => SizeClassState {
                lists: self.lists.update(class as int, self.lists[class as int].push(block.addr)),
                live,
                ..self
            },
            None => SizeClassState { fallback: self.fallback.after_deallocate(block), live, ..self },
        }
    }

    /// A block whose backing block is live in the allocator behind the lists
    /// lies in the heap with all the bytes asked for, and starts at a
    /// multiple of the alignment asked for.
    pub proof fn lemma_backing_covers(self, block: Block)
        requires
            self.fallback.wf(),
            self.fallback.live.contains(backing(block)),
            is_pow2(block.align as int),
        ensures
            self.fallback.live_block_ok(backing(block)),
            backing(block).addr == block.addr,
            extent(backing(block)) >= block.size,
            extent(backing(block)) > 0,
            is_aligned(block.addr as int, block.align as int),
            self.fallback.heap_start <= block.addr,
            block.addr + block.size <= self.fallback.heap_end,
            block.addr < self.fallback.heap_end,
    {
        let b = backing(block);
        let j = self.fallback.live.index_of(b);
        assert(self.fallback.live_block_ok(self.fallback.live[j]));
        lemma_class_serves(block.size, block.align);
        lemma_size_align_rounds_up(b.size, b.align);
        let align2 = size_align_spec(b.size, b.align).unwrap().1;
        lemma_power_of_two_positive(block.align as int);
        lemma_power_of_two_positive(b.align as int);
        lemma_power_of_two_positive(align2 as int);
        lemma_power_of_two_divides(block.align as int, b.align as int);
        lemma_aligned_to_divisor(block.addr as int, align2 as int, b.align as int);
        lemma_aligned_to_divisor(block.addr as int, b.align as int, block.align as int);
    }

    /// Every live block of a well-formed state lies in the heap, and any two
    /// of them share no address.
    pub proof fn lemma_live_blocks_disjoint(self, i: int, j: int)
        requires
            self.wf(),
            0 <= i < self.live.len(),
            0 <= j < self.live.len(),
            i != j,
        ensures
            self.fallback.heap_start <= self.live[i].addr,
            self.live[i].addr + self.live[i].size <= self.fallback.heap_end,
            self.live[i].addr < self.fallback.heap_end,
            ranges_disjoint(
                self.live[i].addr as int,
                self.live[i].size as int,
                self.live[j].addr as int,
                self.live[j].size as int,
            ),
    {
        self.lemma_backing_covers(self.live[i]);
        self.lemma_backing_covers(self.live[j]);
        self.fallback.lemma_live_blocks_apart(backing(self.live[i]), backing(self.live[j]));
    }

    /// A block that shares no address with any block live in the allocator
    /// behind the lists shares none with a live block, and starts where no
    /// live block and no block in a list starts.
    proof fn lemma_fresh_block_is_apart(self, fresh: Block)
        requires
            self.wf(),
            extent(fresh) > 0,
            forall|j: int|
                0 <= j < self.fallback.live.len() ==> blocks_disjoint(
                    fresh,
                    #[trigger] self.fallback.live[j],
                ),
        ensures
            forall|j: int| 0 <= j < self.live.len() ==> (#[trigger] self.live[j]).addr != fresh.addr,
            forall|class: int, k: int|
                self.listed(class, k) ==> #[trigger] self.lists[class][k] != fresh.addr,
            forall|j: int|
                0 <= j < self.live.len() ==> ranges_disjoint(
                    fresh.addr as int,
                    extent(fresh),
                    (#[trigger] self.live[j]).addr as int,
                    self.live[j].size as int,
                ),
    {
        assert forall|j: int| 0 <= j < self.live.len() implies (#[trigger] self.live[j]).addr
            != fresh.addr && ranges_disjoint(
            fresh.addr as int,
            extent(fresh),
            self.live[j].addr as int,
            self.live[j].size as int,
        ) by {
            self.lemma_backing_covers(self.live[j]);
            let at = self.fallback.live.index_of(backing(self.live[j]));
            assert(blocks_disjoint(fresh, self.fallback.live[at]));
        }
        assert forall|class: int, k: int| self.listed(class, k) implies #[trigger] self.lists[class][k]
            != fresh.addr by {
            let listed = class_block(class, self.lists[class][k]);
            let at = self.fallback.live.index_of(listed);
            assert(self.fallback.live_block_ok(self.fallback.live[at]));
            assert(blocks_disjoint(fresh, self.fallback.live[at]));
            reveal_with_fuel(is_pow2, 13);
            lemma_size_align_rounds_up(listed.size, listed.align);
        }
    }

    /// A request leaves a well-formed state well formed. The block that it is
    /// served with starts at a multiple of the alignment asked for, lies in
    /// the heap, and shares no address with a block that was live before.
    pub proof fn lemma_allocate_keeps_wf(self, size: usize, align: usize)
        requires
            self.wf(),
            is_pow2(align as int),
        ensures
            self.after_allocate(size, align).wf(),
            self.after_allocate(size, align).fallback.heap_start == self.fallback.heap_start,
            self.after_allocate(size, align).fallback.heap_end == self.fallback.heap_end,
            self.allocate_result(size, align) is Err ==> self.after_allocate(size, align) == self,
            self.allocate_result(size, align) matches Ok(start) ==> {
                &&& is_aligned(start as int, align as int)
                &&& self.fallback.heap_start <= start
                &&& start + size <= self.fallback.heap_end
                &&& start < self.fallback.heap_end
                &&& self.after_allocate(size, align).live == self.live.push(
                    Block { addr: start, size, align },
                )
                &&& forall|j: int|
                    0 <= j < self.live.len() ==> ranges_disjoint(
                        start as int,
                        size as int,
                        (#[trigger] self.live[j]).addr as int,
                        self.live[j].size as int,
                    )
            },
    {
        lemma_class_serves(size, align);
        let after = self.after_allocate(size, align);
        if let Ok(start) = self.allocate_result(size, align) {
            let block = Block { addr: start, size, align };
            let served = backing(block);
            if list_index_spec(size, align) is Some && self.lists[list_index_spec(
                size,
                align,
            ).unwrap() as int].len() > 0 {
                let class = list_index_spec(size, align).unwrap() as int;
                let top = self.lists[class].len() - 1;
                assert(self.listed(class, top));
                assert(self.lists[class][top] == start);
                assert(self.fallback.live.contains(served));
                assert forall|c: int, k: int| after.listed(c, k) implies self.listed(c, k)
                    && after.lists[c][k] == self.lists[c][k] by {}
                assert forall|j: int| 0 <= j < self.live.len() implies ranges_disjoint(
                    start as int,
                    size as int,
                    (#[trigger] self.live[j]).addr as int,
                    self.live[j].size as int,
                ) by {
                    self.lemma_backing_covers(self.live[j]);
                    self.lemma_backing_covers(block);
                    self.fallback.lemma_live_blocks_apart(served, backing(self.live[j]));
                }
                self.lemma_backing_covers(block);
            } else {
                self.fallback.lemma_allocate_keeps_wf(served.size, served.align);
                assert(after.fallback.live == self.fallback.live.push(served));
                let last = self.fallback.live.len() as int;
                assert(after.fallback.live[last] == served);
                assert(after.fallback.live_block_ok(after.fallback.live[last]));
                lemma_size_align_rounds_up(served.size, served.align);
                self.lemma_fresh_block_is_apart(served);
                assert forall|b: Block| self.fallback.live.contains(b) implies after.fallback.live.contains(
                    b,
                ) by {
                    let at = self.fallback.live.index_of(b);
                    assert(after.fallback.live[at] == b);
                }
                let probe = SizeClassState { fallback: after.fallback, ..self };
                probe.lemma_backing_covers(block);
            }
        }
    }

    /// Releasing a live block leaves a well-formed state well formed.
    pub proof fn lemma_deallocate_keeps_wf(self, block: Block)
        requires
            self.wf(),
            self.live.contains(block),
        ensures
            self.after_deallocate(block).wf(),
            self.after_deallocate(block).fallback.heap_start == self.fallback.heap_start,
            self.after_deallocate(block).fallback.heap_end == self.fallback.heap_end,
    {
        let after = self.after_deallocate(block);
        let at = self.live.index_of(block);
        assert(self.fallback.live.contains(backing(self.live[at])));
        assert forall|j: int| 0 <= j < after.live.len() implies after.live[j] == self.live[if j < at {
            j
        } else {
            j + 1
        }] by {}
        lemma_class_serves(block.size, block.align);
        match list_index_spec(block.size, block.align) {
            Some(class) => {
                let class = class as int;
                let top = self.lists[class].len() as int;
                assert forall|c: int, k: int| after.listed(c, k) implies if c == class && k == top {
                    after.lists[c][k] == block.addr
                } else {
                    self.listed(c, k) && after.lists[c][k] == self.lists[c][k]
                } by {}
            },
            None => {
                self.fallback.lemma_deallocate_keeps_wf(block);
                let gone = self.fallback.live.index_of(block);
                self.lemma_backing_covers(block);
                assert forall|b: Block|
                    self.fallback.live.contains(b) && b.addr
                        != block.addr implies after.fallback.live.contains(b) by {
                    let was = self.fallback.live.index_of(b);
                    let now = if was < gone {
                        was
                    } else {
                        was - 1
                    };
                    assert(after.fallback.live[now] == b);
                }
            },
        }
    }

    /// A block of a class that has just been released serves the next
    /// request of that class: the request gets the address of the block.
    pub proof fn lemma_released_block_is_recycled(self, block: Block, size: usize, align: usize)
        requires
            self.wf(),
            self.live.contains(block),
            list_index_spec(block.size, block.align) is Some,
            list_index_spec(size, align) == list_index_spec(block.size, block.align),
        ensures
            self.after_deallocate(block).allocate_result(size, align) == Ok::<usize, AllocError>(
                block.addr,
            ),
    {
        lemma_class_serves(block.size, block.align);
    }

    /// The state after the operation.
    pub open spec fn after(self, operation: Operation) -> SizeClassState {
        match operation {
            Operation::Allocate { size, align } => self.after_allocate(size, align),
            Operation::Deallocate { block } => self.after_deallocate(block),
        }
    }

    /// The operation may be made in this state: a request has a power of two
    /// as alignment, and a release gives back a live block.
    pub open spec fn admits(self, operation: Operation) -> bool {
        match operation {
            Operation::Allocate { size, align } => is_pow2(align as int),
            Operation::Deallocate { block } => self.live.contains(block),
        }
    }

    /// The state after the operations, made in order.
    pub open spec fn after_all(self, operations: Seq<Operation>) -> SizeClassState
        decreases operations.len(),
    {
        if operations.len() == 0 {
            self
        } else {
            self.after(operations[0]).after_all(operations.drop_first())
        }
    }

    /// Each of the operations may be made when its turn comes.
    pub open spec fn admits_all(self, operations: Seq<Operation>) -> bool
        decreases operations.len(),
    {
        operations.len() == 0 || {
            &&& self.admits(operations[0])
            &&& self.after(operations[0]).admits_all(operations.drop_first())
        }
    }

    /// Operations of other classes, or of none, leave the list of a class as
    /// it is, and the state well formed.
    pub proof fn lemma_other_classes_keep_list(self, operations: Seq<Operation>, class: usize)
        requires
            self.wf(),
            class < self.lists.len(),
            self.admits_all(operations),
            forall|i: int| 0 <= i < operations.len() ==> (#[trigger] operations[i]).class() != Some(class),
        ensures
            self.after_all(operations).wf(),
            self.after_all(operations).lists[class as int] == self.lists[class as int],
        decreases operations.len(),
    {
        if operations.len() > 0 {
            let first = operations[0];
            let rest = operations.drop_first();
            match first {
                Operation::Allocate { size, align } => {
                    self.lemma_allocate_keeps_wf(size, align);
                    self.lemma_allocate_keeps_other_lists(size, align, class);
                },
                Operation::Deallocate { block } => {
                    self.lemma_deallocate_keeps_wf(block);
                    self.lemma_deallocate_keeps_other_lists(block, class);
                },
            }
            assert forall|i: int| 0 <= i < rest.len() implies (#[trigger] rest[i]).class() != Some(
                class,
            ) by {
                assert(rest[i] == operations[i + 1]);
            }
            self.after(first).lemma_other_classes_keep_list(rest, class);
        }
    }

    /// A released block of a class serves the next request of that class,
    /// whatever is asked of other classes in between: the request gets the
    /// address of the block.
    pub proof fn lemma_released_block_is_recycled_later(
        self,
        block: Block,
        between: Seq<Operation>,
        size: usize,
        align: usize,
    )
        requires
            self.wf(),
            self.live.contains(block),
            list_index_spec(block.size, block.align) is Some,
            list_index_spec(size, align) == list_index_spec(block.size, block.align),
            self.after_deallocate(block).admits_all(between),
            forall|i: int|
                0 <= i < between.len() ==> (#[trigger] between[i]).class() != list_index_spec(
                    size,
                    align,
                ),
        ensures
            self.after_deallocate(block).after_all(between).allocate_result(size, align) == Ok::<
                usize,
                AllocError,
            >(block.addr),
    {
        lemma_class_serves(block.size, block.align);
        let class = list_index_spec(size, align).unwrap();
        self.lemma_deallocate_keeps_wf(block);
        self.after_deallocate(block).lemma_other_classes_keep_list(between, class);
    }

    /// A request of another class, or of none, leaves the list of a class
    /// as it is.
    pub proof fn lemma_allocate_keeps_other_lists(self, size: usize, align: usize, class: usize)
        requires
            self.wf(),
            class < self.lists.len(),
            list_index_spec(size, align) != Some(class),
        ensures
            self.after_allocate(size, align).lists[class as int] == self.lists[class as int],
    {
        lemma_class_serves(size, align);
    }

    /// The release of a block of another class, or of none, leaves the list
    /// of a class as it is.
    pub proof fn lemma_deallocate_keeps_other_lists(self, block: Block, class: usize)
        requires
            self.wf(),
            class < self.lists.len(),
            list_index_spec(block.size, block.align) != Some(class),
        ensures
            self.after_deallocate(block).lists[class as int] == self.lists[class as int],
    {
        lemma_class_serves(block.size, block.align);
    }
}

/// The segregated allocator: a list of free blocks for each block size, and
/// the free-list allocator that new blocks and large requests come from.
pub struct FixedSizeBlockAllocator {
    list_heads: Vec<Vec<usize>>,
    fallback_allocator: LinkedListAllocator,
    live: Ghost<Seq<Block>>,
}

impl View for FixedSizeBlockAllocator {
    type V = SizeClassState;

    closed spec fn view(&self) -> SizeClassState {
        SizeClassState {
            lists: Seq::new(self.list_heads@.len(), |class: int| self.list_heads@[class]@),
            fallback: self.fallback_allocator@,
            live: self.live@,
        }
    }
}

impl FixedSizeBlockAllocator {
    /// The state of the allocator is well formed.
    pub open spec fn wf(&self) -> bool {
        self@.wf()
    }

    /// An allocator with empty lists and an empty heap at address 0.
    pub fn new() -> (allocator: Self)
        ensures
            allocator.wf(),
            allocator@ == (SizeClassState {
                lists: Seq::new(BLOCK_SIZES@.len(), |class: int| Seq::empty()),
                fallback: FreeListState {
                    heap_start: 0,
                    heap_end: 0,
                    free: Seq::empty(),
                    live: Seq::empty(),
                },
                live: Seq::empty(),
            }),
    {
        let mut list_heads: Vec<Vec<usize>> = Vec::new();
        while list_heads.len() < BLOCK_SIZES.len()
            invariant
                list_heads@.len() <= BLOCK_SIZES@.len(),
                forall|class: int| 0 <= class < list_heads@.len() ==> (#[trigger] list_heads@[class])@.len() == 0,
            decreases BLOCK_SIZES@.len() - list_heads@.len(),
        {
            list_heads.push(Vec::new());
        }
        let allocator = FixedSizeBlockAllocator {
            list_heads,
            fallback_allocator: LinkedListAllocator::new(),
            live: Ghost(Seq::empty()),
        };
        assert(allocator@.lists =~~= Seq::new(BLOCK_SIZES@.len(), |class: int| Seq::<usize>::empty()));
        allocator
    }

    /// Takes `[heap_start, heap_start + heap_size)` as the heap of the
    /// allocator behind the lists.
    pub fn init(&mut self, heap_start: usize, heap_size: usize)
        requires
            old(self).wf(),
            old(self)@.fallback.free.len() == 0,
            old(self)@.fallback.live.len() == 0,
            is_aligned(heap_start as int, NODE_ALIGN as int),
            heap_size >= NODE_SIZE,
            heap_start + heap_size <= usize::MAX,
        ensures
            final(self).wf(),
            final(self)@ == (SizeClassState {
                fallback: FreeListState {
                    heap_start,
                    heap_end: (heap_start + heap_size) as usize,
                    free: seq![ListNode { addr: heap_start, size: heap_size }],
                    live: Seq::empty(),
                },
                ..old(self)@
            }),
    {
        proof {
            assert forall|class: int, k: int| !old(self)@.listed(class, k) by {
                if old(self)@.listed(class, k) {
                    assert(old(self)@.fallback.live.contains(
                        class_block(class, old(self)@.lists[class][k]),
                    ));
                }
            }
            if old(self)@.live.len() > 0 {
                assert(old(self)@.fallback.live.contains(backing(old(self)@.live[0])));
            }
        }
        self.fallback_allocator.init(heap_start, heap_size);
    }

    /// Serves a request by the allocator behind the lists.
    fn fallback_alloc(&mut self, size: usize, align: usize) -> (result: Result<usize, AllocError>)
        requires
            old(self)@.fallback.wf(),
            is_pow2(align as int),
        ensures
            result == old(self)@.fallback.allocate_result(size, align),
            final(self)@ == (SizeClassState {
                fallback: old(self)@.fallback.after_allocate(size, align),
                ..old(self)@
            }),
    {
        self.fallback_allocator.allocate(size, align)
    }

    /// Serves a request of `size` bytes at a multiple of `align`: with the
    /// head of the list of its class; where that list is empty, with a new
    /// block of the class from the allocator behind the lists; and a request
    /// that no block size serves by that allocator as it stands. The request
    /// fails as that allocator does, and a failed request changes nothing.
    pub fn allocate(&mut self, size: usize, align: usize) -> (result: Result<usize, AllocError>)
        requires
            old(self).wf(),
            is_pow2(align as int),
        ensures
            final(self).wf(),
            result == old(self)@.allocate_result(size, align),
            final(self)@ == old(self)@.after_allocate(size, align),
            result matches Ok(start) ==> {
                &&& is_aligned(start as int, align as int)
                &&& old(self)@.fallback.heap_start <= start
                &&& start + size <= old(self)@.fallback.heap_end
                &&& start < old(self)@.fallback.heap_end
                &&& forall|j: int|
                    0 <= j < old(self)@.live.len() ==> ranges_disjoint(
                        start as int,
                        size as int,
                        (#[trigger] old(self)@.live[j]).addr as int,
                        old(self)@.live[j].size as int,
                    )
            },
    {
        proof {
            old(self)@.lemma_allocate_keeps_wf(size, align);
            lemma_class_serves(size, align);
        }
        let result = match list_index(size, align) {
            Some(index) => {
                match self.list_heads[index].pop() {
                    Some(addr) => {
                        assert(self@.lists =~~= old(self)@.lists.update(
                            index as int,
                            old(self)@.lists[index as int].drop_last(),
                        ));
                        Ok(addr)
                    },
                    None => {
                        assert(self@.lists =~~= old(self)@.lists);
                        let block_size = BLOCK_SIZES[index];
                        self.fallback_alloc(block_size, block_size)
                    },
                }
            },
            None => self.fallback_alloc(size, align),
        };
        if let Ok(addr) = result {
            self.live = Ghost(self.live@.push(Block { addr, size, align }));
        }
        result
    }

    /// Releases a live block: a block with a class becomes the head of the
    /// list of its class, and any other goes back to the allocator behind
    /// the lists. The class is that of the size and alignment given, which
    /// are those of the request.
    pub fn deallocate(&mut self, addr: usize, size: usize, align: usize)
        requires
            old(self).wf(),
            old(self)@.live.contains(Block { addr, size, align }),
        ensures
            final(self).wf(),
            final(self)@ == old(self)@.after_deallocate(Block { addr, size, align }),
    {
        let ghost block = Block { addr, size, align };
        let ghost at = self.live@.index_of(block);
        proof {
            old(self)@.lemma_deallocate_keeps_wf(block);
            lemma_class_serves(size, align);
            assert(self@.fallback.live.contains(backing(self@.live[at])));
        }
        match list_index(size, align) {
            Some(index) => {
                self.list_heads[index].push(addr);
                assert(self@.lists =~~= old(self)@.lists.update(
                    index as int,
                    old(self)@.lists[index as int].push(addr),
                ));
            },
            None => {
                self.fallback_allocator.deallocate(addr, size, align);
            },
        }
        self.live = Ghost(self.live@.remove(at));
    }

    /// How many free blocks the list of class `class` holds.
    pub fn free_blocks(&self, class: usize) -> (count: usize)
        requires
            self.wf(),
            class < BLOCK_SIZES@.len(),
        ensures
            count == self@.lists[class as int].len(),
    {
        self.list_heads[class].len()
    }
}

impl HeapAllocator for FixedSizeBlockAllocator {
    open spec fn inv(&self) -> bool {
        self.wf()
    }

    open spec fn heap_range(&self) -> (usize, usize) {
        (self@.fallback.heap_start, self@.fallback.heap_end)
    }

    open spec fn live_blocks(&self) -> Seq<Block> {
        self@.live
    }

    fn allocate(&mut self, size: usize, align: usize) -> (result: Result<usize, AllocError>)
        ensures
            result == old(self)@.allocate_result(size, align),
            final(self)@ == old(self)@.after_allocate(size, align),
    {
        proof {
            self@.lemma_allocate_keeps_wf(size, align);
        }
        FixedSizeBlockAllocator::allocate(self, size, align)
    }

    fn deallocate(&mut self, addr: usize, size: usize, align: usize)
        ensures
            final(self)@ == old(self)@.after_deallocate(Block { addr, size, align }),
    {
        proof {
            self@.lemma_deallocate_keeps_wf(Block { addr, size, align });
        }
        FixedSizeBlockAllocator::deallocate(self, addr, size, align)
    }
}

} // verus!
