//! Physical frames and the capability of handing them out.
use vstd::prelude::*;

pub mod area_frame_allocator;

pub use self::area_frame_allocator::{AreaFrameAllocator, MemoryArea};

verus! {

/// Size in bytes of one physical frame.
pub const PAGE_SIZE: u64 = 4096;

/// A fixed-size unit of physical memory, identified by its index.
#[derive(Debug, Clone, Copy, PartialEq, Eq, Structural, PartialOrd, Ord)]
pub struct Frame {
    pub number: u64,
}

/// The index of the frame that holds physical address `addr`.
pub open spec fn frame_of(addr: int) -> int {
    addr / (PAGE_SIZE as int)
}

impl Frame {
    /// The frame that contains the physical address `address`.
    pub fn from_physical_address(address: u64) -> (r: Frame)
        ensures
            r.number == frame_of(address as int),
    {
        Frame { number: address / PAGE_SIZE }
    }
}

/// Something that hands out physical frames and may take them back.
pub trait FrameAllocator {
    /// The internal invariant that every operation keeps.
    spec fn inv(&self) -> bool;

    /// Whether `frame` may be handed back to this allocator.
    spec fn takes_back(&self, frame: Frame) -> bool;

    /// Hands out a frame that is not in use, or `None` when there is none.
    fn allocate_frame(&mut self) -> (r: Option<Frame>)
        requires
            old(self).inv(),
        ensures
            final(self).inv(),
    ;

    /// Returns `frame`, which this allocator handed out, to the free pool.
    fn deallocate_frame(&mut self, frame: Frame)
        requires
            old(self).inv(),
            old(self).takes_back(frame),
        ensures
            final(self).inv(),
    ;
}

} // verus!
