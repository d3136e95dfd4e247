//! Frames: the units of memory that back a virtual region.
use vstd::prelude::*;
use crate::addr::PhysAddr;
use crate::page::PhysPageNum;

verus! {

/// The three frame size classes.
#[derive(Clone, Copy, PartialEq, Eq, Debug)]
pub enum FrameSize {
    Size4Kb,
    Size2Mb,
    Size1Gb,
}

impl FrameSize {
    /// Size of the class in bytes.
    pub open spec fn spec_bytes(self) -> nat {
        match self {
            FrameSize::Size4Kb => 0x1000,
            FrameSize::Size2Mb => 0x20_0000,
            FrameSize::Size1Gb => 0x4000_0000,
        }
    }

    /// Size of the class in base pages.
    pub open spec fn spec_pages(self) -> nat {
        match self {
            FrameSize::Size4Kb => 1,
            FrameSize::Size2Mb => 512,
            FrameSize::Size1Gb => 0x4_0000,
        }
    }

    /// Position of the class among the three, smallest first.
    pub open spec fn spec_class(self) -> nat {
        match self {
            FrameSize::Size4Kb => 0,
            FrameSize::Size2Mb => 1,
            FrameSize::Size1Gb => 2,
        }
    }

    /// The class at position `k` among the three, smallest first.
    pub open spec fn spec_of_class(k: nat) -> FrameSize {
        if k == 0 {
            FrameSize::Size4Kb
        } else if k == 1 {
            FrameSize::Size2Mb
        } else {
            FrameSize::Size1Gb
        }
    }

    /// A class is the class at its own position.
    pub proof fn lemma_class_round_trip(f: FrameSize)
        ensures
            FrameSize::spec_of_class(f.spec_class()) == f,
            f.spec_class() < 3,
            f.spec_bytes() > 0,
    {
    }

    /// Size of the class in bytes.
    pub fn bytes(&self) -> (r: u64)
        ensures
            r == self.spec_bytes(),
    {
        match self {
            FrameSize::Size4Kb => 0x1000,
            FrameSize::Size2Mb => 0x20_0000,
            FrameSize::Size1Gb => 0x4000_0000,
        }
    }

    /// Size of the class in base pages.
    pub fn pages(&self) -> (r: u64)
        ensures
            r == self.spec_pages(),
    {
        match self {
            FrameSize::Size4Kb => 1,
            FrameSize::Size2Mb => 512,
            FrameSize::Size1Gb => 0x4_0000,
        }
    }

    /// Position of the class among the three, smallest first.
    pub fn class(&self) -> (r: usize)
        ensures
            r == self.spec_class(),
    {
        match self {
            FrameSize::Size4Kb => 0,
            FrameSize::Size2Mb => 1,
            FrameSize::Size1Gb => 2,
        }
    }

    /// The class whose position is `class`.
    pub fn from_class(class: usize) -> (r: FrameSize)
        requires
            class < 3,
        ensures
            r.spec_class() == class,
    {
        if class == 0 {
            FrameSize::Size4Kb
        } else if class == 1 {
            FrameSize::Size2Mb
        } else {
            FrameSize::Size1Gb
        }
    }
}

/// Anything that occupies a frame-sized slot of virtual space.
pub trait FRAME {
    /// The size class of the frame.
    spec fn spec_frame_size(&self) -> FrameSize;

    /// The size class of the frame.
    fn frame_size(&self) -> (r: FrameSize)
        ensures
            r == self.spec_frame_size(),
    ;
}

/// A frame backed by physical memory.
#[derive(PartialEq, Eq, Debug)]
pub struct DataFrame {
    start: PhysAddr,
    size: FrameSize,
}

impl DataFrame {
    /// The physical address of the first byte.
    pub closed spec fn spec_start(&self) -> PhysAddr {
        self.start
    }

    /// The size class.
    pub closed spec fn spec_size(&self) -> FrameSize {
        self.size
    }

    /// A frame of class `size` starting at `start`.
    pub fn new(start: PhysAddr, size: FrameSize) -> (r: DataFrame)
        ensures
            r.spec_start() == start,
            r.spec_size() == size,
    {
        DataFrame { start, size }
    }

    /// The physical address of the first byte.
    pub fn frame_addr(&self) -> (r: PhysAddr)
        ensures
            r == self.spec_start(),
    {
        self.start
    }
}

impl FRAME for DataFrame {
    open spec fn spec_frame_size(&self) -> FrameSize {
        self.spec_size()
    }

    fn frame_size(&self) -> (r: FrameSize) {
        self.size
    }
}

/// A hole in virtual space with no memory behind it, to trap overruns.
#[derive(PartialEq, Eq, Debug)]
pub struct GuardFrame {
    pub size: FrameSize,
}

impl GuardFrame {
    /// A guard of class `size`.
    pub fn new(size: FrameSize) -> (r: GuardFrame)
        ensures
            r.size == size,
    {
        GuardFrame { size }
    }
}

impl FRAME for GuardFrame {
    open spec fn spec_frame_size(&self) -> FrameSize {
        self.size
    }

    fn frame_size(&self) -> (r: FrameSize) {
        self.size
    }
}

/// A reserved slot of virtual space whose memory comes later.
#[derive(PartialEq, Eq, Debug)]
pub struct LazyFrame {
    pub size: FrameSize,
}

impl LazyFrame {
    /// A lazy frame of class `size`.
    pub fn new(size: FrameSize) -> (r: LazyFrame)
        ensures
            r.size == size,
    {
        LazyFrame { size }
    }
}

impl FRAME for LazyFrame {
    open spec fn spec_frame_size(&self) -> FrameSize {
        self.size
    }

    fn frame_size(&self) -> (r: FrameSize) {
        self.size
    }
}

/// One frame of a region.
#[derive(PartialEq, Eq, Debug)]
pub enum Frame {
    Data(DataFrame),
    Guard(GuardFrame),
    Lazy(LazyFrame),
}

impl Frame {
    /// The size class of the frame, whatever its kind.
    pub open spec fn spec_frame_size(&self) -> FrameSize {
        match self {
            Frame::Data(d) => d.spec_size(),
            Frame::Guard(g) => g.size,
            Frame::Lazy(l) => l.size,
        }
    }

    /// The size class of the frame, whatever its kind.
    pub fn frame_size(&self) -> (r: FrameSize)
        ensures
            r == self.spec_frame_size(),
    {
        match self {
            Frame::Data(data) => data.frame_size(),
            Frame::Guard(guard) => guard.frame_size(),
            Frame::Lazy(lazy) => lazy.frame_size(),
        }
    }
}

/// A physical base page, named by its page number.
#[derive(Clone, Copy, PartialEq, Eq, Debug)]
pub struct PhysFrame {
    ppn: PhysPageNum,
}

impl PhysFrame {
    /// The page number of the frame.
    pub closed spec fn spec_ppn(&self) -> PhysPageNum {
        self.ppn
    }

    /// The frame with page number `ppn`.
    pub fn new(ppn: PhysPageNum) -> (r: PhysFrame)
        ensures
            r.spec_ppn() == ppn,
    {
        PhysFrame { ppn }
    }

    /// The frame that holds `address`.
    pub fn containing_address(address: PhysAddr) -> (r: PhysFrame)
        ensures
            r.spec_ppn().0 == address.view() / 4096,
    {
        PhysFrame { ppn: PhysPageNum::new(address) }
    }

    /// The frames that hold the bytes from `begin` up to, not including,
    /// `end`; `end` must leave room to round up within the width.
    pub fn range_of(begin: PhysAddr, end: PhysAddr) -> (r: PhysFrameRange)
        requires
            end.view() + 4095 <= crate::addr::ADDR_MASK48,
        ensures
            r.start.spec_ppn().0 == begin.view() / 4096,
            r.end.spec_ppn().0 == (end.view() + 4095) / 4096,
    {
        let last = end.plus(4095);
        PhysFrame::range(PhysFrame::containing_address(begin), PhysFrame::containing_address(last))
    }

    /// The page number of the frame.
    pub fn ppn(&self) -> (r: PhysPageNum)
        ensures
            r == self.spec_ppn(),
    {
        self.ppn
    }

    /// The size of the frame in bytes.
    pub fn size(&self) -> (r: u64)
        ensures
            r == 4096,
    {
        4096
    }

    /// The frames from `start` up to, not including, `end`.
    pub fn range(start: PhysFrame, end: PhysFrame) -> (r: PhysFrameRange)
        ensures
            r.start == start,
            r.end == end,
    {
        PhysFrameRange { start, end }
    }
}

/// The frames from `start` up to, not including, `end`.
#[derive(Clone, Copy, PartialEq, Eq, Debug)]
pub struct PhysFrameRange {
    pub start: PhysFrame,
    pub end: PhysFrame,
}

impl PhysFrameRange {
    /// Whether the range holds no frame.
    pub fn is_empty(&self) -> (r: bool)
        ensures
            r == !(self.start.spec_ppn().0 < self.end.spec_ppn().0),
    {
        !(self.start.ppn().0 < self.end.ppn().0)
    }

    /// The page numbers of the range.
    pub fn range(&self) -> (r: core::ops::Range<u64>)
        ensures
            r.start == self.start.spec_ppn().0,
            r.end == self.end.spec_ppn().0,
    {
        let start = self.start.ppn().0;
        let end = self.end.ppn().0;
        start..end
    }
}

} // verus!
