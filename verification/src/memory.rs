//! Handing out the unused frames of physical memory, one after another.

use vstd::prelude::*;

verus! {

/// The size of a frame in bytes.
pub const FRAME_SIZE: u64 = 4096;

/// A region of physical memory: the frames with the numbers from
/// `start_frame_number` up to, not including, `end_frame_number`. The number
/// of a frame is its address divided by `FRAME_SIZE`.
#[derive(Debug, Clone, Copy, PartialEq, Eq, Structural)]
pub struct MemoryRegion {
    pub start_frame_number: u64,
    pub end_frame_number: u64,
    /// Whether the region is unused and free for the kernel to take.
    pub usable: bool,
}

impl MemoryRegion {
    /// The end of the region is an address.
    pub open spec fn wf(self) -> bool {
        self.end_frame_number * FRAME_SIZE <= u64::MAX
    }

    /// The addresses of the frames that the region offers, ascending: all its
    /// frames where it is usable, none where it is not.
    pub open spec fn frames(self) -> Seq<u64> {
        if self.usable && self.start_frame_number < self.end_frame_number {
            Seq::new(
                (self.end_frame_number - self.start_frame_number) as nat,
                |k: int| ((self.start_frame_number + k) * FRAME_SIZE) as u64,
            )
        } else {
            Seq::empty()
        }
    }
}

/// The addresses of the usable frames of a memory map: those of its first
/// region, then those of its second, and so on.
pub open spec fn usable_frames(memory_map: Seq<MemoryRegion>) -> Seq<u64>
    decreases memory_map.len(),
{
    if memory_map.len() == 0 {
        Seq::empty()
    } else {
        usable_frames(memory_map.drop_last()) + memory_map.last().frames()
    }
}

/// The usable frames of the first `i` regions are the first of the usable
/// frames of the map.
pub proof fn lemma_usable_frames_prefix(memory_map: Seq<MemoryRegion>, i: int)
    requires
        0 <= i <= memory_map.len(),
    ensures
        usable_frames(memory_map.take(i)).len() <= usable_frames(memory_map).len(),
        usable_frames(memory_map.take(i)) == usable_frames(memory_map).take(
            usable_frames(memory_map.take(i)).len() as int,
        ),
    decreases memory_map.len(),
{
    if i == memory_map.len() {
        assert(memory_map.take(i) =~= memory_map);
        assert(usable_frames(memory_map) =~= usable_frames(memory_map).take(
            usable_frames(memory_map).len() as int,
        ));
    } else {
        let front = memory_map.drop_last();
        lemma_usable_frames_prefix(front, i);
        assert(front.take(i) =~= memory_map.take(i));
        assert(usable_frames(memory_map.take(i)) =~= usable_frames(memory_map).take(
            usable_frames(memory_map.take(i)).len() as int,
        ));
    }
}

/// The abstract state of a frame allocator.
pub struct FrameAllocatorState {
    pub memory_map: Seq<MemoryRegion>,
    /// How many times a frame was asked for: the place among the usable
    /// frames of the frame that the next call hands out.
    pub next: usize,
}

impl FrameAllocatorState {
    /// Every region of the memory map ends at an address.
    pub open spec fn wf(self) -> bool {
        forall|i: int| 0 <= i < self.memory_map.len() ==> (#[trigger] self.memory_map[i]).wf()
    }

    /// The frame that `allocate_frame` hands out in this state: the usable
    /// frame at place `next`, as long as there is one and `next` can still
    /// be counted up.
    pub open spec fn next_frame(self) -> Option<u64> {
        if self.next < usable_frames(self.memory_map).len() && self.next < usize::MAX {
            Some(usable_frames(self.memory_map)[self.next as int])
        } else {
            None
        }
    }
}

/// Hands out the usable frames of a memory map, each once, in the order of
/// the map.
pub struct BootInfoFrameAllocator<'a> {
    memory_map: &'a [MemoryRegion],
    next: usize,
}

impl<'a> View for BootInfoFrameAllocator<'a> {
    type V = FrameAllocatorState;

    closed spec fn view(&self) -> FrameAllocatorState {
        FrameAllocatorState { memory_map: self.memory_map@, next: self.next }
    }
}

impl<'a> BootInfoFrameAllocator<'a> {
    /// The state of the allocator is well formed.
    pub open spec fn wf(&self) -> bool {
        self@.wf()
    }

    /// A frame allocator for the given memory map, not yet asked for a frame.
    pub fn init(memory_map: &'a [MemoryRegion]) -> (allocator: Self)
        requires
            forall|i: int| 0 <= i < memory_map@.len() ==> (#[trigger] memory_map@[i]).wf(),
        ensures
            allocator.wf(),
            allocator@ == (FrameAllocatorState { memory_map: memory_map@, next: 0 }),
    {
        BootInfoFrameAllocator { memory_map, next: 0 }
    }

    /// How many times a frame was asked for.
    pub fn next(&self) -> (count: usize)
        ensures
            count == self@.next,
    {
        self.next
    }

    /// Hands out the address of the next usable frame, or `None` when every
    /// usable frame was handed out. Each call counts `next` up by one, with
    /// or without a frame, until `next` is `usize::MAX`: from then on the
    /// call changes nothing and hands out no frame.
    pub fn allocate_frame(&mut self) -> (frame: Option<u64>)
        requires
            old(self).wf(),
        ensures
            final(self).wf(),
            frame == old(self)@.next_frame(),
            final(self)@.memory_map == old(self)@.memory_map,
            final(self)@.next == if old(self)@.next < usize::MAX {
                old(self)@.next + 1
            } else {
                old(self)@.next as int
            },
    {
        if self.next == usize::MAX {
            return None;
        }
        let mut remaining: usize = self.next;
        let mut i: usize = 0;
        while i < self.memory_map.len()
            invariant
                *self == *old(self),
                self.wf(),
                self.next < usize::MAX,
                0 <= i <= self.memory_map.len(),
                usable_frames(self.memory_map@.take(i as int)).len() + remaining == self.next,
            decreases self.memory_map.len() - i,
        {
            let region = self.memory_map[i];
            proof {
                assert(self@.memory_map[i as int].wf());
                assert(self.memory_map@.take(i + 1).drop_last() =~= self.memory_map@.take(i as int));
                lemma_usable_frames_prefix(self.memory_map@, i + 1);
            }
            if region.usable && region.start_frame_number < region.end_frame_number {
                let count = region.end_frame_number - region.start_frame_number;
                if (remaining as u64) < count {
                    let number = region.start_frame_number + remaining as u64;
                    assert(number * FRAME_SIZE <= region.end_frame_number * FRAME_SIZE)
                        by (nonlinear_arith)
                        requires
                            number <= region.end_frame_number,
                    ;
                    let frame = number * FRAME_SIZE;
                    assert(region.frames()[remaining as int] == frame);
                    assert(usable_frames(self.memory_map@.take(i + 1))[self.next as int] == frame);
                    self.next += 1;
                    return Some(frame);
                }
                remaining -= count as usize;
            }
            i += 1;
        }
        proof {
            assert(self.memory_map@.take(i as int) =~= self.memory_map@);
        }
        self.next += 1;
        None
    }
}

} // verus!
