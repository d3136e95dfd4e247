use vmcore::addr::{Addr, PhysAddr, UserAddr};
use vmcore::frame::{DataFrame, FrameSize, PhysFrame};
use vmcore::page::PhysPageNum;
use vmcore::page_table::{PageTable, PageTableEntry, PageTableFlagsField, AF, UXN};
use vmcore::syscall::{decode_syscall, read_wraper, write_wrapper, SyscallRequest, SYSCALL_EXIT, SYSCALL_WRITE};
use vmcore::addr_space::MapError;
use vmcore::frame_allocator::{FrameAllocError, StackFrameAllocator};
use vmcore::thread::{KernelStack, RegType, Thread, ThreadCtx, ThreadError, ThreadState};

#[test]
fn user_context_points_at_stack_and_entry() {
    let mut c = ThreadCtx::new();
    c.user_init(UserAddr::new(0x7fff_f000), UserAddr::new(0x40_0000));
    assert_eq!(c.get(RegType::SP_EL0), 0x7fff_f000);
    assert_eq!(c.get(RegType::ELR_EL1), 0x40_0000);
    assert_eq!(c.get(RegType::SPSR_EL1), 0);
    assert_eq!(c.get(RegType::X0), 0);
    assert_eq!(RegType::TPIDR_EL0.index(), 34);
}

#[test]
fn syscall_arguments_come_from_x0_to_x2() {
    let mut c = ThreadCtx::new();
    c.set_reg(RegType::X0, 1);
    c.set_reg(RegType::X1, 0xffff_0000_0040_0000);
    c.set_reg(RegType::X2, 12);
    c.set_reg(RegType::X8, SYSCALL_WRITE);
    let w = write_wrapper(&c);
    assert_eq!(w.fd, 1);
    assert_eq!(w.buf_addr.addr(), 0x40_0000);
    assert_eq!(w.buf_len, 12);
    assert_eq!(read_wraper(&c), w);
    assert_eq!(decode_syscall(&c), SyscallRequest::Write(w));
    c.set_reg(RegType::X8, SYSCALL_EXIT);
    assert_eq!(decode_syscall(&c), SyscallRequest::Exit);
    c.set_reg(RegType::X8, 999);
    assert_eq!(decode_syscall(&c), SyscallRequest::Unsupported(999));
}

#[test]
fn kernel_stack_starts_at_frame_top() {
    let st = KernelStack::new(DataFrame::new(PhysAddr::new(0x8_0000), FrameSize::Size4Kb));
    assert_eq!(st.sp().addr(), 0xffff_0000_0008_1000);
}

#[test]
fn entry_bits() {
    let mut e = PageTableEntry::new();
    assert!(e.is_unused());
    e.set_table_page(PhysAddr::new(0x5000), Some(PageTableFlagsField::new(AF)));
    assert_eq!(e.entry, 0x5000 | AF | 3);
    assert!(e.is_valid() && e.is_table_page() && !e.is_huge_page());
    assert_eq!(e.get_table(), Some(PhysAddr::new(0x5000)));
    e.set_huge_page(PhysAddr::new(0x20_0000), None);
    assert_eq!(e.entry, 0x20_0001);
    assert!(e.is_huge_page());
    assert_eq!(e.get_table(), None);
    e.set_flags(Some(PageTableFlagsField::new(UXN)));
    assert_eq!(e.entry, 0x20_0000 | UXN | 1);
    assert_eq!(e.flags().value, UXN | 1);
    e.set_placeholder(Some(PageTableFlagsField::new(AF | 1)));
    assert!(!e.is_valid());
    assert_eq!(e.entry, AF);
    e.clear();
    assert!(e.is_unused());
    e.entry = 7;
    e.set_unused();
    assert_eq!(e.entry, 0);
}

#[test]
fn flag_sets_merge() {
    let f = PageTableFlagsField::new(AF).plus(PageTableFlagsField::new(UXN));
    assert_eq!(f.value, AF | UXN);
    assert!(f.matches_all(AF | UXN));
    assert!(!f.matches_all(AF | 1));
    assert!(f.matches_any(AF | 1));
    assert!(!f.matches_any(1));
}

#[test]
fn tables_have_512_unused_entries() {
    let mut t = PageTable::new();
    assert_eq!(t.iter().len(), 512);
    assert!(t.iter().iter().all(|e| e.is_unused()));
    let mut e = PageTableEntry::new();
    e.set_huge_page(PhysAddr::new(0x4000_0000), None);
    t.set_entry(3, e);
    assert_eq!(t.entry(3), e);
    t.zero();
    assert!(t.entry(3).is_unused());
}

#[test]
fn physical_frames_and_ranges() {
    let a = PhysFrame::new(PhysPageNum(4));
    let b = PhysFrame::new(PhysPageNum(9));
    assert_eq!(a.ppn(), PhysPageNum(4));
    assert_eq!(a.size(), 4096);
    let r = PhysFrame::range(a, b);
    assert!(!r.is_empty());
    assert_eq!(r.range(), 4..9);
    assert!(PhysFrame::range(b, a).is_empty());
    assert_eq!(PhysFrame::containing_address(PhysAddr::new(0x5fff)).ppn(), PhysPageNum(5));
    assert_eq!(PhysFrame::range_of(PhysAddr::new(0x1800), PhysAddr::new(0x3001)).range(), 1..4);
}

#[test]
fn first_thread_gets_stack_space_and_context() {
    let mut a = StackFrameAllocator::create_allocator(PhysAddr::new(0x1000), PhysAddr::new(0x10_0000));
    let mut t = Thread::create_root_thread(&mut a, UserAddr::new(0x7000_0000), 0x4000, UserAddr::new(0x40_0000)).unwrap();
    assert_eq!(t.get_state(), ThreadState::READY);
    assert_eq!(t.context().get(RegType::SP_EL0), 0x7000_4000);
    assert_eq!(t.context().get(RegType::ELR_EL1), 0x40_0000);
    assert_eq!(t.get_space().regions().len(), 1);
    assert_eq!(t.get_space().regions()[0].size(), 0x4000);
    assert_eq!(t.get_pagetable().addr(), 0x1000);
    assert_eq!(t.get_kernel_stack().addr() & 0xfff, 0);
    t.set_state(ThreadState::RUNNING);
    assert_eq!(t.get_state(), ThreadState::RUNNING);
    let mut none = StackFrameAllocator::create_allocator(PhysAddr::new(0x1000), PhysAddr::new(0x1000));
    assert!(matches!(
        Thread::create_root_thread(&mut none, UserAddr::new(0x7000_0000), 0x4000, UserAddr::new(0x40_0000)),
        Err(ThreadError::Space(_))
    ));
}

#[test]
fn first_thread_reports_each_shortage() {
    let mut two = StackFrameAllocator::create_allocator(PhysAddr::new(0x1000), PhysAddr::new(0x3000));
    assert_eq!(
        Thread::create_root_thread(&mut two, UserAddr::new(0x7000_0000), 0x4000, UserAddr::new(0x40_0000)).err(),
        Some(ThreadError::Stack(MapError::NoFrame(FrameAllocError::CapNotEnoughError)))
    );
    // room for the root and the stack but not for its tables
    let mut tight = StackFrameAllocator::create_allocator(PhysAddr::new(0x1000), PhysAddr::new(0x6000));
    assert!(matches!(
        Thread::create_root_thread(&mut tight, UserAddr::new(0x7000_0000), 0x4000, UserAddr::new(0x40_0000)),
        Err(ThreadError::Stack(MapError::NoTableFrame(_)))
    ));
}
