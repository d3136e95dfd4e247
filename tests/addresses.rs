use vmcore::addr::{ceil, floor, kernel_to_phys, phys_to_kernel, phys_to_virt, virt_to_phys, Addr, KernelAddr, PhysAddr, UserAddr, VirtAddr};
use vmcore::page::{PageAlign, PageLevel, PageMode, PhysPageNum, VirtPageNum, ARM64, Page, Size1GiB, Size2MiB, Size4KiB, PageSize, table_index};

#[test]
fn floor_and_ceil_round_to_alignment() {
    assert_eq!(floor(0x1234, 0x1000), 0x1000);
    assert_eq!(ceil(0x1234, 0x1000), 0x2000);
    assert_eq!(ceil(0x2000, 0x1000), 0x2000);
    assert_eq!(floor(0x2000, 0x1000), 0x2000);
    assert_eq!(floor(7, 1), 7);
    assert_eq!(ceil(0x20_0001, 0x20_0000), 0x40_0000);
}

#[test]
fn phys_addr_is_masked_to_width() {
    let a = PhysAddr::new(0xffff_1234_5678_9abc);
    assert_eq!(a.addr(), 0x1234_5678_9abc);
    assert_eq!(a.value(), 0x1234_5678_9abc);
    assert_eq!(a.page_offset(0x1000), 0xabc);
    assert!(!a.aligned(0x1000));
    assert_eq!(a.floor(0x1000).addr(), 0x1234_5678_9000);
    assert_eq!(a.ceil(0x1000).addr(), 0x1234_5678_a000);
    assert_eq!(a.num(), 0x1234_5678_9);
    assert_eq!(a.offset(0x10), 0xc);
    assert!(PhysAddr::new(0x3000).is_aligned(0x1000));
    assert_eq!(PhysAddr::base(), 0);
}

#[test]
fn phys_addr_plus_and_minus() {
    let a = PhysAddr::new(0x1000);
    assert_eq!(a.plus(0x234).addr(), 0x1234);
    assert_eq!(a.minus(0x1000).addr(), 0);
}

#[test]
fn kernel_addr_lives_in_top_half() {
    let k = KernelAddr::new(0x1234);
    assert_eq!(k.addr(), 0xffff_0000_0000_1234);
    assert_eq!(KernelAddr::new(0xffff_0000_0000_5000).addr(), 0xffff_0000_0000_5000);
    assert_eq!(k.floor(0x1000).addr(), 0xffff_0000_0000_1000);
    assert_eq!(k.ceil(0x1000).addr(), 0xffff_0000_0000_2000);
    assert_eq!(k.plus(0x10).addr(), 0xffff_0000_0000_1244);
    assert_eq!(KernelAddr::base(), 0xffff_0000_0000_0000);
}

#[test]
fn user_and_virt_addresses() {
    let u = UserAddr::new(0xffff_0000_0040_0123);
    assert_eq!(u.addr(), 0x40_0123);
    assert_eq!(u.floor(0x1000).addr(), 0x40_0000);
    assert_eq!(u.ceil(0x1000).addr(), 0x40_1000);
    assert_eq!(u.plus(0x10).addr(), 0x40_0133);
    let v = VirtAddr::new(0x1_0000_0fff);
    assert_eq!(v.floor(0x1000).addr(), 0x1_0000_0000);
    assert_eq!(v.ceil(0x1000).addr(), 0x1_0000_1000);
    assert_eq!(v.page_offset(0x1000), 0xfff);
    assert!(!v.aligned(0x1000));
}

#[test]
fn kernel_round_trip_gives_back_the_address() {
    for raw in [0u64, 0x1000, 0x4000_1234, 0x0000_ffff_ffff_ffff] {
        let a = PhysAddr::new(raw);
        let k = phys_to_kernel(a);
        assert_eq!(k.addr(), raw | 0xffff_0000_0000_0000);
        assert_eq!(kernel_to_phys(k), a);
    }
}

#[test]
fn phys_to_virt_adds_the_kernel_base() {
    let a = PhysAddr::new(0x4008_0000);
    let k = phys_to_virt(a);
    assert_eq!(k.addr(), 0xffff_0000_4008_0000);
    assert_eq!(virt_to_phys(k), a);
}

#[test]
fn page_number_inverse_for_aligned_addresses() {
    for raw in [0u64, 0x1000, 0x8000, 0x4000_0000, 0x0000_ffff_ffff_f000] {
        let a = PhysAddr::new(raw);
        let p = PhysPageNum::new(a);
        assert_eq!(p.0, raw >> 12);
        assert_eq!(p.addr(), a);
    }
    let v = VirtPageNum::new(VirtAddr::new(0x5000));
    assert_eq!(v.0, 5);
    assert_eq!(v.addr(), VirtAddr::new(0x5000));
}

#[test]
fn page_number_range_and_next() {
    let p = PhysPageNum(5);
    assert!(p.is_within_range(PhysPageNum(5), PhysPageNum(6)));
    assert!(!p.is_within_range(PhysPageNum(6), PhysPageNum(10)));
    assert!(p.is_within_range(PhysPageNum(10), PhysPageNum(6)));
    assert!(!p.is_within_range(PhysPageNum(10), PhysPageNum(5)));
    assert_eq!(p.next_page(), PhysPageNum(6));
    assert_eq!(PhysPageNum(u64::MAX).next_page(), PhysPageNum(0));
}

#[test]
fn arm64_levels_and_alignment() {
    assert_eq!(ARM64::get_align_for_level(PageLevel(0)), PageAlign(1));
    assert_eq!(ARM64::get_align_for_level(PageLevel(1)), PageAlign(512));
    assert_eq!(ARM64::get_align_for_level(PageLevel(2)), PageAlign(512 * 512));
    assert_eq!(ARM64::get_align_for_level(PageLevel(3)).value(), 512 * 512 * 512);
    assert_eq!(ARM64::vpn_index(VirtPageNum(0x1234_5678), PageLevel(0)), 0x1234_5678 & 511);
    assert_eq!(ARM64::vpn_index(VirtPageNum(0x1234_5678), PageLevel(1)), (0x1234_5678 >> 9) & 511);
    assert_eq!(ARM64::vpn_index(VirtPageNum(0x1234_5678), PageLevel(2)), (0x1234_5678 >> 18) & 511);
    assert_eq!(ARM64::visit_levels_until(PageLevel::leaf_level()), vec![PageLevel(2), PageLevel(1), PageLevel(0)]);
    assert_eq!(ARM64::visit_levels_before(PageLevel(1)), vec![PageLevel(3), PageLevel(2)]);
    assert_eq!(ARM64::visit_levels_before(PageLevel(3)), vec![]);
    assert_eq!(ARM64::visit_levels_from(PageLevel(1)), vec![PageLevel(1), PageLevel(0)]);
    assert_eq!(ARM64::max_level(), PageLevel(3));
    let v = 0x1234_5678u64;
    assert_eq!(ARM64::vpn_level_index(VirtPageNum(v), PageLevel(0), 7), VirtPageNum(v - v % 512 + 7));
    assert_eq!(ARM64::vpn_level_index(VirtPageNum(v), PageLevel(1), 7), VirtPageNum(v - v % 0x4_0000 + 7 * 512));
    assert_eq!(ARM64::vpn_level_index(VirtPageNum(v), PageLevel(3), 1), VirtPageNum(0x800_0000));
    assert_eq!(ARM64::frame_size_bits(), 12);
}

#[test]
fn pages_and_their_indices() {
    let va = VirtAddr::new(0x0000_8040_2030_1234);
    let p = Page::<Size4KiB>::containing_address(va);
    assert_eq!(p.start_address(), VirtAddr::new(0x0000_8040_2030_1000));
    assert_eq!(p.size(), 4096);
    assert_eq!(p.p0_index(), (0x0000_8040_2030_1234u64 >> 39) as usize & 0x1ff);
    assert_eq!(p.p1_index(), (0x0000_8040_2030_1234u64 >> 30) as usize & 0x1ff);
    assert_eq!(p.p2_index(), (0x0000_8040_2030_1234u64 >> 21) as usize & 0x1ff);
    assert_eq!(p.p3_index(), (0x0000_8040_2030_1234u64 >> 12) as usize & 0x1ff);
    assert!(Page::<Size2MiB>::from_start_address(va).is_err());
    let h = Page::<Size2MiB>::from_start_address(VirtAddr::new(0x4000_0000)).unwrap();
    assert_eq!(h.size(), 0x20_0000);
    assert_eq!(h.p2_index(), 0);
    assert_eq!(h.p1_index(), 1);
    assert_eq!(Size1GiB::size(), 0x4000_0000);
    assert_eq!(table_index(0x0000_8040_2030_1234, 3), 0x101);
}
