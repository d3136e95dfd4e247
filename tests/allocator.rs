use vmcore::addr::{Addr, PhysAddr, VirtAddr};
use vmcore::frame::{DataFrame, FrameSize, FRAME};
use vmcore::frame_allocator::{FrameAllocError, StackFrameAllocator};

fn pool(base: u64, end: u64) -> StackFrameAllocator {
    StackFrameAllocator::create_allocator(PhysAddr::new(base), PhysAddr::new(end))
}

#[test]
fn single_frames_come_from_the_cursor() {
    let mut a = pool(0x1000, 0x10000);
    let f = a.allocate_single_frame(FrameSize::Size4Kb).unwrap();
    assert_eq!(f.frame_addr().addr(), 0x1000);
    assert_eq!(f.frame_size(), FrameSize::Size4Kb);
    let g = a.allocate_single_frame(FrameSize::Size4Kb).unwrap();
    assert_eq!(g.frame_addr().addr(), 0x2000);
    assert_eq!(a.current().addr(), 0x3000);
    assert_eq!(a.end().addr(), 0x10000);
}

#[test]
fn huge_classes_are_served_aligned() {
    let mut a = pool(0x20_0000, 0x8000_0000);
    let f = a.allocate_single_frame(FrameSize::Size2Mb).unwrap();
    assert_eq!(f.frame_addr().addr(), 0x20_0000);
    assert_eq!(f.frame_addr().addr() % 0x20_0000, 0);
    assert_eq!(a.allocate_single_frame(FrameSize::Size1Gb), Err(FrameAllocError::AlignedError));
    let mut b = pool(0x4000_0000, 0x8000_0000);
    let g = b.allocate_single_frame(FrameSize::Size1Gb).unwrap();
    assert_eq!(g.frame_addr().addr(), 0x4000_0000);
}

#[test]
fn misaligned_cursor_is_an_alignment_error() {
    let mut a = pool(0x1000, 0x100_0000);
    assert_eq!(a.allocate_single_frame(FrameSize::Size2Mb), Err(FrameAllocError::AlignedError));
    assert_eq!(a.current().addr(), 0x1000);
}

#[test]
fn exhausted_pool_reports_capacity() {
    let mut a = pool(0, 0x2000);
    assert!(a.allocate_single_frame(FrameSize::Size4Kb).is_ok());
    assert!(a.allocate_single_frame(FrameSize::Size4Kb).is_ok());
    assert_eq!(a.allocate_single_frame(FrameSize::Size4Kb), Err(FrameAllocError::CapNotEnoughError));
    assert_eq!(a.current().addr(), 0x2000);
    assert_eq!(a.allocate_single_frame(FrameSize::Size2Mb), Err(FrameAllocError::CapNotEnoughError));
    assert_eq!(a.unsafe_alloc_page(), Err(FrameAllocError::CapNotEnoughError));
}

#[test]
fn freed_frame_is_reused_first() {
    let mut a = pool(0x1000, 0x10000);
    let f = a.allocate_single_frame(FrameSize::Size4Kb).unwrap();
    let _g = a.allocate_single_frame(FrameSize::Size4Kb).unwrap();
    let at = f.frame_addr();
    a.deallocate_frame(&f);
    assert_eq!(a.free_count(FrameSize::Size4Kb), 1);
    let h = a.allocate_single_frame(FrameSize::Size4Kb).unwrap();
    assert_eq!(h.frame_addr(), at);
    assert_eq!(a.current().addr(), 0x3000);
    assert_eq!(a.free_count(FrameSize::Size4Kb), 0);
}

#[test]
fn freed_huge_frame_is_reused_for_its_class_only() {
    let mut a = pool(0x20_0000, 0x100_0000);
    let f = a.allocate_single_frame(FrameSize::Size2Mb).unwrap();
    a.deallocate_frame(&f);
    let p = a.allocate_single_frame(FrameSize::Size4Kb).unwrap();
    assert_eq!(p.frame_addr().addr(), 0x40_0000);
    let g = a.allocate_single_frame(FrameSize::Size2Mb).unwrap();
    assert_eq!(g.frame_addr().addr(), 0x20_0000);
}

#[test]
fn raw_pages_for_tables() {
    let mut a = pool(0x1000, 0x10000);
    let p = a.unsafe_alloc_page().unwrap();
    assert_eq!(p.addr(), 0x1000);
    a.unsafe_deallo(p);
    assert_eq!(a.unsafe_alloc_page().unwrap(), p);
    let mut b = pool(0x1800, 0x10000);
    assert_eq!(b.unsafe_alloc_page(), Err(FrameAllocError::AlignedError));
}

#[test]
fn frames_for_a_range_use_huge_pages() {
    let mut a = pool(0x20_0000, 0x100_0000);
    let frames = a.allocate_frames(&VirtAddr::new(0x20_0000), 0x20_0000 + 0x2000).unwrap();
    let got: Vec<(u64, FrameSize)> = frames.iter().map(|f| (f.frame_addr().addr(), f.frame_size())).collect();
    assert_eq!(
        got,
        vec![(0x20_0000, FrameSize::Size2Mb), (0x40_0000, FrameSize::Size4Kb), (0x40_1000, FrameSize::Size4Kb)]
    );
    assert_eq!(a.current().addr(), 0x40_2000);
}

#[test]
fn frames_for_a_range_round_up_to_pages() {
    let mut a = pool(0x1000, 0x10_0000);
    let frames = a.allocate_frames(&VirtAddr::new(0x5000), 1).unwrap();
    assert_eq!(frames.len(), 1);
    assert_eq!(frames[0].frame_addr().addr(), 0x1000);
    assert_eq!(frames[0].frame_size(), FrameSize::Size4Kb);
    let none = a.allocate_frames(&VirtAddr::new(0x5000), 0).unwrap();
    assert!(none.is_empty());
}

#[test]
fn frames_for_a_range_prefer_freed_frames_at_the_tail() {
    let mut a = pool(0x1000, 0x10_0000);
    let f = a.allocate_single_frame(FrameSize::Size4Kb).unwrap();
    let at = f.frame_addr();
    a.deallocate_frame(&f);
    let frames = a.allocate_frames(&VirtAddr::new(0x9000), 0x2000).unwrap();
    assert_eq!(frames.len(), 2);
    assert_eq!(frames[0].frame_addr().addr(), 0x2000);
    assert_eq!(frames[1].frame_addr(), at);
    assert_eq!(a.current().addr(), 0x3000);
    assert_eq!(a.free_count(FrameSize::Size4Kb), 0);
}

#[test]
fn frames_for_a_range_fail_whole_when_pool_is_short() {
    let mut a = pool(0x1000, 0x3000);
    assert_eq!(a.allocate_frames(&VirtAddr::new(0), 0x3000).unwrap_err(), FrameAllocError::CapNotEnoughError);
    assert_eq!(a.current().addr(), 0x1000);
    let frames = a.allocate_frames(&VirtAddr::new(0), 0x2000).unwrap();
    assert_eq!(frames.len(), 2);
}

#[test]
fn every_frame_is_aligned_to_its_class() {
    let mut a = pool(0x4000_0000, 0x1_0000_0000);
    let frames = a.allocate_frames(&VirtAddr::new(0x4000_0000 - 0x3000), 0x4000_0000 + 0x20_0000 + 0x5000).unwrap();
    let mut total = 0;
    for f in &frames {
        let size = match f.frame_size() {
            FrameSize::Size4Kb => 0x1000,
            FrameSize::Size2Mb => 0x20_0000,
            FrameSize::Size1Gb => 0x4000_0000,
        };
        assert_eq!(f.frame_addr().addr() % size, 0);
        total += size;
    }
    assert_eq!(total, 0x4000_0000 + 0x20_0000 + 0x5000);
    assert!(frames.iter().any(|f| f.frame_size() == FrameSize::Size1Gb) == false);
}

#[test]
fn data_frame_keeps_its_fields() {
    let d = DataFrame::new(PhysAddr::new(0x7000), FrameSize::Size4Kb);
    assert_eq!(d.frame_addr().addr(), 0x7000);
    assert_eq!(FrameSize::Size2Mb.bytes(), 0x20_0000);
    assert_eq!(FrameSize::Size1Gb.pages(), 0x4_0000);
    assert_eq!(FrameSize::from_class(1), FrameSize::Size2Mb);
    assert_eq!(FrameSize::Size1Gb.class(), 2);
}
