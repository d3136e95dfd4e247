use vmcore::addr::{Addr, PhysAddr, UserAddr};
use vmcore::addr_space::{segment_flags, AccessSpaceError, MapError, VmSpace};
use vmcore::page::{PhysPageNum, VirtPageNum};
use vmcore::page_table::{AP_EL0_OR_ELX_OR, PXN, SH_INNERSHARE, UXN};
use vmcore::frame::{DataFrame, Frame, FrameSize, GuardFrame, LazyFrame};
use vmcore::frame_allocator::StackFrameAllocator;
use vmcore::page_table::{PageTableFlagsField, AF, AP_EL0_RW_ELX_RW};
use vmcore::syscall::{sys_read, sys_write};

const MEM: usize = 0x10_0000;

fn memory() -> Vec<u8> {
    (0..MEM).map(|i| (i % 251) as u8).collect()
}

fn setup() -> (StackFrameAllocator, VmSpace) {
    let mut a = StackFrameAllocator::create_allocator(PhysAddr::new(0x1000), PhysAddr::new(MEM as u64));
    let s = VmSpace::new(&mut a).unwrap();
    (a, s)
}

fn data(a: &mut StackFrameAllocator) -> Frame {
    Frame::Data(a.allocate_single_frame(FrameSize::Size4Kb).unwrap())
}

fn flags() -> Option<PageTableFlagsField> {
    Some(PageTableFlagsField::new(AF | AP_EL0_RW_ELX_RW))
}

#[test]
fn new_space_has_a_root_and_no_regions() {
    let (a, s) = setup();
    assert_eq!(s.get_pagetable().addr(), 0x1000);
    assert!(s.regions().is_empty());
    assert_eq!(a.current().addr(), 0x2000);
    let mut empty = StackFrameAllocator::create_allocator(PhysAddr::new(0), PhysAddr::new(0));
    assert!(VmSpace::new(&mut empty).is_err());
}

#[test]
fn mapped_region_reads_back_from_its_frames() {
    let (mut a, mut s) = setup();
    let f1 = data(&mut a);
    let f2 = data(&mut a);
    let (pa_first, pa_second) = match (&f1, &f2) {
        (Frame::Data(x), Frame::Data(y)) => (x.frame_addr().addr(), y.frame_addr().addr()),
        _ => unreachable!(),
    };
    s.map_range(0x40_0000, 0x2000, vec![f1, f2], flags(), &mut a).unwrap();
    let mem = memory();
    for va in [0x40_0000u64, 0x40_0001, 0x40_0fff, 0x40_1000, 0x40_1abc, 0x40_1fff] {
        let mut buf = vec![0u8; 1];
        assert_eq!(s.read_from_space(&mem, &mut buf, va), Ok(1));
        let pa = if va < 0x40_1000 { pa_first + (va - 0x40_0000) } else { pa_second + (va - 0x40_1000) };
        assert_eq!(buf[0], mem[pa as usize]);
    }
    let mut buf = vec![0u8; 0x1800];
    assert_eq!(s.read_from_space(&mem, &mut buf, 0x40_0800), Ok(0x1800));
    assert_eq!(buf[0], mem[(pa_first + 0x800) as usize]);
    assert_eq!(buf[0x800], mem[pa_second as usize]);
    let mut long = vec![7u8; 0x10];
    assert_eq!(s.read_from_space(&mem, &mut long, 0x40_1ffc), Ok(4));
    assert_eq!(long[4], 7);
}

#[test]
fn read_outside_every_region_is_unexisted() {
    let (mut a, mut s) = setup();
    let f = data(&mut a);
    s.map_range(0x40_0000, 0x1000, vec![f], flags(), &mut a).unwrap();
    let mem = memory();
    let mut buf = vec![9u8; 4];
    assert_eq!(s.read_from_space(&mem, &mut buf, 0x40_1000), Err(AccessSpaceError::UnExisted));
    assert_eq!(s.read_from_space(&mem, &mut buf, 0x3f_ffff), Err(AccessSpaceError::UnExisted));
    assert_eq!(buf, vec![9u8; 4]);
}

#[test]
fn guard_frame_reads_as_unexisted() {
    let (mut a, mut s) = setup();
    let f = data(&mut a);
    let frames = vec![f, Frame::Guard(GuardFrame::new(FrameSize::Size4Kb))];
    s.map_range(0x80_0000, 0x2000, frames, flags(), &mut a).unwrap();
    let mem = memory();
    let mut buf = vec![0u8; 1];
    assert_eq!(s.read_from_space(&mem, &mut buf, 0x80_0fff), Ok(1));
    assert_eq!(s.read_from_space(&mem, &mut buf, 0x80_1000), Err(AccessSpaceError::UnExisted));
    let mut two = vec![0u8; 2];
    assert_eq!(s.read_from_space(&mem, &mut two, 0x80_0fff), Err(AccessSpaceError::UnExisted));
    let entry = s.lookup(0x80_1000, 3).unwrap();
    assert!(!entry.is_valid());
}

#[test]
fn lazy_frame_reads_as_unexisted() {
    let (mut a, mut s) = setup();
    let frames = vec![Frame::Lazy(LazyFrame::new(FrameSize::Size4Kb))];
    s.map_range(0x90_0000, 0x1000, frames, None, &mut a).unwrap();
    let mem = memory();
    let mut buf = vec![0u8; 1];
    assert_eq!(s.read_from_space(&mem, &mut buf, 0x90_0000), Err(AccessSpaceError::UnExisted));
}

#[test]
fn overlapping_region_is_refused() {
    let (mut a, mut s) = setup();
    let f = data(&mut a);
    s.map_range(0x40_0000, 0x2000, vec![f], flags(), &mut a).unwrap();
    let g = data(&mut a);
    assert_eq!(s.map_range(0x40_1000, 0x1000, vec![g], flags(), &mut a), Err(MapError::Overlap));
    assert_eq!(s.regions().len(), 1);
    assert_eq!(s.regions()[0].start(), 0x40_0000);
    assert_eq!(s.regions()[0].get_frames().len(), 1);
    assert_eq!(a.free_count(FrameSize::Size4Kb), 1);
    let h = data(&mut a);
    assert!(s.map_range(0x40_2000, 0x1000, vec![h], flags(), &mut a).is_ok());
    assert_eq!(s.regions().len(), 2);
}

#[test]
fn leaf_entries_are_installed_at_the_right_level() {
    let (mut a, mut s) = setup();
    let f = data(&mut a);
    let pa = match &f {
        Frame::Data(d) => d.frame_addr(),
        _ => unreachable!(),
    };
    s.map_range(0x40_0000, 0x1000, vec![f], flags(), &mut a).unwrap();
    let e = s.lookup(0x40_0000, 3).unwrap();
    assert!(e.is_valid());
    assert!(e.is_table_page());
    assert_eq!(e.addr(), pa);
    assert_eq!(e.flags().value & AF, AF);
    assert!(s.lookup(0x40_0000, 2).unwrap().is_table_page());
    assert!(s.lookup(0x40_1000, 3).unwrap().is_unused());
    assert!(s.lookup(0x4000_0000, 3).is_none());
}

#[test]
fn huge_frame_becomes_a_block_entry() {
    let mut a = StackFrameAllocator::create_allocator(PhysAddr::new(0x20_0000), PhysAddr::new(0x100_0000));
    let mut s = VmSpace::new(&mut a).unwrap();
    let big = a.allocate_single_frame(FrameSize::Size2Mb);
    // the root took the first 4 KiB, so the cursor is no longer 2 MiB aligned
    assert!(big.is_err());
    let d = DataFrame::new(PhysAddr::new(0x60_0000), FrameSize::Size2Mb);
    s.map_range(0x20_0000, 0x20_0000, vec![Frame::Data(d)], flags(), &mut a).unwrap();
    let e = s.lookup(0x20_0000, 2).unwrap();
    assert!(e.is_huge_page());
    assert_eq!(e.addr().addr(), 0x60_0000);
}

#[test]
fn destroying_a_space_returns_its_frames() {
    let (mut a, mut s) = setup();
    let f = data(&mut a);
    s.map_range(0x40_0000, 0x1000, vec![f], flags(), &mut a).unwrap();
    let cursor = a.current();
    s.destroy(&mut a);
    assert_eq!(a.current(), cursor);
    // the data frame, the root and three intermediate tables
    assert_eq!(a.free_count(FrameSize::Size4Kb), 5);
}

#[test]
fn region_accessors() {
    let (mut a, mut s) = setup();
    let f = data(&mut a);
    s.map_range(0x40_0000, 0x1000, vec![f], flags(), &mut a).unwrap();
    let r = &s.regions()[0];
    assert_eq!(r.start(), 0x40_0000);
    assert_eq!(r.size(), 0x1000);
    assert_eq!(r.flag(), flags());
    assert!(r.is_in_range(0x40_0fff));
    assert!(!r.is_in_range(0x40_1000));
    assert!(!r.is_in_range(0x3f_ffff));
}

#[test]
fn write_copies_the_user_buffer_for_stdout() {
    let (mut a, mut s) = setup();
    let f = data(&mut a);
    let pa = match &f {
        Frame::Data(d) => d.frame_addr().addr(),
        _ => unreachable!(),
    };
    s.map_range(0x40_0000, 0x1000, vec![f], flags(), &mut a).unwrap();
    let mem = memory();
    let mut out = vec![b'>'];
    assert_eq!(sys_write(&s, &mem, 1, UserAddr::new(0x40_0010), 3, &mut out), 0);
    assert_eq!(out, vec![b'>', mem[(pa + 0x10) as usize], mem[(pa + 0x11) as usize], mem[(pa + 0x12) as usize]]);
    assert_eq!(sys_write(&s, &mem, 2, UserAddr::new(0x40_0010), 3, &mut out), -1);
    assert_eq!(sys_write(&s, &mem, 1, UserAddr::new(0x50_0000), 3, &mut out), -1);
    assert_eq!(out.len(), 4);
    assert_eq!(sys_read(0, UserAddr::new(0x40_0000), 4), 0);
}

#[test]
fn single_frame_install_is_found_by_the_walk() {
    let (mut a, mut s) = setup();
    let d = DataFrame::new(PhysAddr::new(0x7000), FrameSize::Size4Kb);
    s.map_frame(0x1234_5000, &Frame::Data(d), flags(), &mut a).unwrap();
    let e = s.lookup(0x1234_5000, 3).unwrap();
    assert_eq!(e.entry, 0x7000 | AF | AP_EL0_RW_ELX_RW | 3);
    let g = Frame::Guard(GuardFrame::new(FrameSize::Size2Mb));
    s.map_frame(0x4000_0000, &g, flags(), &mut a).unwrap();
    let e = s.lookup(0x4000_0000, 2).unwrap();
    assert_eq!(e.entry, AF | AP_EL0_RW_ELX_RW);
}

#[test]
fn segment_flags_follow_permissions() {
    assert_eq!(segment_flags(true, true, false).value, SH_INNERSHARE | AF | AP_EL0_RW_ELX_RW | UXN | PXN);
    assert_eq!(segment_flags(true, false, true).value, SH_INNERSHARE | AF | AP_EL0_OR_ELX_OR | PXN);
    assert_eq!(segment_flags(false, false, true).value, SH_INNERSHARE | AF | PXN);
}

#[test]
fn new_range_gets_fresh_frames_and_a_guard() {
    let (mut a, mut s) = setup();
    s.map_new_range(0x7000_0000, 0x4000, true, flags(), &mut a).unwrap();
    let r = &s.regions()[0];
    assert_eq!(r.start(), 0x7000_0000);
    assert_eq!(r.size(), 0x4000);
    assert_eq!(r.get_frames().len(), 5);
    assert!(matches!(r.get_frames()[4], Frame::Guard(_)));
    let mem = memory();
    let mut buf = vec![0u8; 0x4000];
    assert_eq!(s.read_from_space(&mem, &mut buf, 0x7000_0000), Ok(0x4000));
    assert!(s.lookup(0x7000_3000, 3).unwrap().is_table_page());
    assert!(!s.lookup(0x7000_4000, 3).unwrap().is_valid());
    assert_eq!(s.map_new_range(0x7000_2000, 0x1000, false, flags(), &mut a), Err(MapError::Overlap));
    let mut tiny = StackFrameAllocator::create_allocator(PhysAddr::new(0x1000), PhysAddr::new(0x2000));
    let mut t = VmSpace::new(&mut tiny).unwrap();
    assert!(matches!(t.map_new_range(0x1000, 0x1000, false, flags(), &mut tiny), Err(MapError::NoFrame(_))));
    assert!(t.regions().is_empty());
}

#[test]
fn page_range_mapping_uses_blocks() {
    let mut a = StackFrameAllocator::create_allocator(PhysAddr::new(0x1000), PhysAddr::new(0x10_0000));
    let mut s = VmSpace::new(&mut a).unwrap();
    // 512 + 2 pages from page 512 onto page 0x1000: one 2 MiB block and two pages
    s.allocate_map(VirtPageNum(512), PhysPageNum(0x1000), 514, flags(), &mut a).unwrap();
    let b = s.lookup(0x20_0000, 2).unwrap();
    assert!(b.is_huge_page());
    assert_eq!(b.addr().addr(), 0x100_0000);
    let p = s.lookup(0x40_1000, 3).unwrap();
    assert!(p.is_table_page());
    assert_eq!(p.addr().addr(), 0x120_1000);
    let mut empty = StackFrameAllocator::create_allocator(PhysAddr::new(0x1000), PhysAddr::new(0x2000));
    let mut t = VmSpace::new(&mut empty).unwrap();
    assert!(matches!(
        t.allocate_map(VirtPageNum(0), PhysPageNum(0), 1, None, &mut empty),
        Err(MapError::NoTableFrame(_))
    ));
}

#[test]
fn unmapped_region_is_gone_and_its_entries_cleared() {
    let (mut a, mut s) = setup();
    let f = data(&mut a);
    let g = data(&mut a);
    s.map_range(0x40_0000, 0x2000, vec![f, g], flags(), &mut a).unwrap();
    let h = data(&mut a);
    s.map_range(0x50_0000, 0x1000, vec![h], flags(), &mut a).unwrap();
    let before = a.free_count(FrameSize::Size4Kb);
    assert_eq!(s.unmap(0x40_1234, &mut a), Ok(()));
    assert_eq!(a.free_count(FrameSize::Size4Kb), before + 2);
    assert_eq!(s.regions().len(), 1);
    assert_eq!(s.regions()[0].start(), 0x50_0000);
    assert!(s.lookup(0x40_0000, 3).unwrap().is_unused());
    assert!(s.lookup(0x40_1000, 3).unwrap().is_unused());
    assert!(s.lookup(0x50_0000, 3).unwrap().is_valid());
    let mem = memory();
    let mut buf = vec![0u8; 1];
    assert_eq!(s.read_from_space(&mem, &mut buf, 0x40_0000), Err(AccessSpaceError::UnExisted));
    assert_eq!(s.unmap(0x40_0000, &mut a), Err(AccessSpaceError::UnExisted));
    assert_eq!(s.regions().len(), 1);
}

#[test]
fn remap_replaces_flags_of_a_region() {
    let (mut a, mut s) = setup();
    let f = data(&mut a);
    let pa = match &f {
        Frame::Data(d) => d.frame_addr().addr(),
        _ => unreachable!(),
    };
    s.map_range(0x40_0000, 0x1000, vec![f], flags(), &mut a).unwrap();
    let ro = PageTableFlagsField::new(AF | AP_EL0_OR_ELX_OR | UXN);
    assert_eq!(s.remap(0x40_0abc, ro, &mut a), Ok(()));
    assert_eq!(s.regions()[0].flag(), Some(ro));
    assert_eq!(s.lookup(0x40_0000, 3).unwrap().entry, pa | AF | AP_EL0_OR_ELX_OR | UXN | 3);
    assert_eq!(s.remap(0x50_0000, ro, &mut a), Err(MapError::NoRegion));
}

#[test]
fn tables_are_handed_out_for_the_hardware_walker() {
    let (mut a, mut s) = setup();
    let f = data(&mut a);
    s.map_range(0x40_0000, 0x1000, vec![f], flags(), &mut a).unwrap();
    let (addrs, entries) = s.tables();
    assert_eq!(addrs[0], s.get_pagetable());
    assert_eq!(entries.len(), 512 * addrs.len());
    assert_eq!(addrs.len(), 4);
}
