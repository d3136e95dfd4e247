//! Typed addresses and page numbers.
//!
//! Physical and user addresses are masked to the 48-bit address width at
//! construction; kernel addresses are the same bits with the top half of
//! the virtual space set.
use vstd::prelude::*;
use vstd::bits::{lemma_u64_low_bits_mask_is_mod, lemma_u64_pow2_no_overflow, low_bits_mask};
use vstd::arithmetic::power2::pow2;

verus! {

/// Size of a base page in bytes.
pub const PAGE_SIZE: u64 = 4096;

/// Number of offset bits in a base page.
pub const PAGE_SIZE_BITS: u64 = 12;

/// Width of a physical address in bits.
pub const PA_WIDTH: u64 = 48;

/// Width of a virtual address in bits.
pub const VA_WIDTH: u64 = 48;

/// Bits that an address keeps.
pub const ADDR_MASK48: u64 = 0x0000_ffff_ffff_ffff;

/// Base of the kernel half of the virtual space.
pub const KERNEL_BASE: u64 = 0xffff_0000_0000_0000;

/// `a` is a power of two that fits in 64 bits.
pub open spec fn is_pow2(a: u64) -> bool {
    exists|k: nat| k < 64 && a as nat == pow2(k)
}

/// The largest multiple of `align` not above `addr`.
pub open spec fn spec_floor(addr: u64, align: u64) -> int {
    addr - addr % align
}

/// The smallest multiple of `align` not below `addr`.
pub open spec fn spec_ceil(addr: u64, align: u64) -> int {
    if addr % align == 0 {
        addr as int
    } else {
        addr - addr % align + align
    }
}

/// Masking with `align - 1` is taking the remainder.
pub proof fn lemma_mask_is_mod(x: u64, align: u64)
    requires
        is_pow2(align),
    ensures
        align > 0,
        x & ((align - 1) as u64) == x % align,
        x & !((align - 1) as u64) == x - x % align,
        x | ((align - 1) as u64) == x - x % align + (align - 1),
{
    let k = choose|k: nat| k < 64 && align as nat == pow2(k);
    lemma_u64_pow2_no_overflow(k);
    lemma_u64_low_bits_mask_is_mod(x, k);
    assert(low_bits_mask(k) == align - 1);
    let m = (align - 1) as u64;
    assert(x & !m == (x - (x & m)) as u64) by (bit_vector);
    assert(x & m <= x) by (bit_vector);
    assert(x & !m <= !m) by (bit_vector);
    assert(!m == (0xffff_ffff_ffff_ffffu64 - m) as u64) by (bit_vector);
    assert(x | m == ((x & !m) + m) as u64) by (bit_vector);
}

/// An integer within the width is unchanged by the width mask.
pub proof fn lemma_in_width_masked(x: u64)
    ensures
        x <= ADDR_MASK48 ==> x & ADDR_MASK48 == x,
{
    assert(x <= 0x0000_ffff_ffff_ffffu64 ==> x & 0x0000_ffff_ffff_ffffu64 == x) by (bit_vector);
}

/// Rounds `addr` down to a multiple of `align`.
pub fn floor(addr: u64, align: u64) -> (r: u64)
    requires
        is_pow2(align),
    ensures
        r == spec_floor(addr, align),
        r <= addr,
{
    proof {
        lemma_mask_is_mod(addr, align);
    }
    addr & !(align - 1)
}

/// Rounds `addr` up to a multiple of `align`.
pub fn ceil(addr: u64, align: u64) -> (r: u64)
    requires
        is_pow2(align),
        spec_ceil(addr, align) <= u64::MAX,
    ensures
        r == spec_ceil(addr, align),
{
    proof {
        lemma_mask_is_mod(addr, align);
    }
    let align_mask = align - 1;
    if addr & align_mask == 0 {
        addr
    } else {
        (addr | align_mask) + 1
    }
}

/// What every address type offers.
pub trait Addr: Sized {
    /// The address as an integer.
    spec fn spec_addr(&self) -> u64;

    /// The fixed bits that every address of this kind carries.
    spec fn spec_base() -> u64;

    /// The fixed bits that every address of this kind carries.
    fn base() -> (r: u64)
        ensures
            r == Self::spec_base(),
    ;

    /// The address as an integer.
    fn addr(&self) -> (r: u64)
        ensures
            r == self.spec_addr(),
    ;

    /// The offset of the address within a block of `align` bytes.
    fn offset(&self, align: u64) -> (r: u64)
        requires
            is_pow2(align),
        ensures
            r == self.spec_addr() % align,
    {
        let a = self.addr();
        proof {
            lemma_mask_is_mod(a, align);
        }
        a & (align - 1)
    }

    /// The base-page number of the address.
    fn num(&self) -> (r: u64)
        ensures
            r == self.spec_addr() / 4096,
    {
        let a = self.addr();
        assert(a >> 12u64 == a / 4096) by (bit_vector);
        a >> 12u64
    }

    /// Whether the address is a multiple of `align`.
    fn is_aligned(&self, align: u64) -> (r: bool)
        requires
            is_pow2(align),
        ensures
            r == (self.spec_addr() % align == 0),
    {
        self.offset(align) == 0
    }
}

/// A physical address, at most 48 bits wide.
#[derive(Clone, Copy, PartialEq, Eq, Debug)]
pub struct PhysAddr(u64);

/// A kernel virtual address: 48 bits of offset in the top half of the space.
#[derive(Clone, Copy, PartialEq, Eq, Debug)]
pub struct KernelAddr(u64);

/// A user virtual address, at most 48 bits wide.
#[derive(Clone, Copy, PartialEq, Eq, Debug)]
pub struct UserAddr(u64);

/// A virtual address, at most 48 bits wide.
#[derive(Clone, Copy, PartialEq, Eq, Debug)]
pub struct VirtAddr(u64);

impl PhysAddr {
    #[verifier::type_invariant]
    spec fn in_width(self) -> bool {
        self.0 <= ADDR_MASK48
    }

    /// The address as an integer.
    pub closed spec fn view(self) -> u64 {
        self.0
    }

    /// The address as an integer, which lies within the width.
    pub fn value(&self) -> (r: u64)
        ensures
            r == self.view(),
            r <= ADDR_MASK48,
    {
        proof {
            use_type_invariant(&*self);
        }
        self.0
    }

    /// Makes an address from the low 48 bits of `addr`.
    pub fn new(addr: u64) -> (r: PhysAddr)
        ensures
            r.view() == addr & ADDR_MASK48,
    {
        let a = addr & ADDR_MASK48;
        assert(addr & 0x0000_ffff_ffff_ffffu64 <= 0x0000_ffff_ffff_ffffu64) by (bit_vector);
        PhysAddr(a)
    }

    /// Rounds down to a multiple of `align`.
    pub fn floor(&self, align: u64) -> (r: PhysAddr)
        requires
            is_pow2(align),
        ensures
            r.view() == spec_floor(self.view(), align),
    {
        proof {
            use_type_invariant(&*self);
        }
        let f = floor(self.0, align);
        PhysAddr(f)
    }

    /// Rounds up to a multiple of `align`; the result stays within the width.
    pub fn ceil(&self, align: u64) -> (r: PhysAddr)
        requires
            is_pow2(align),
            spec_ceil(self.view(), align) <= ADDR_MASK48,
        ensures
            r.view() == spec_ceil(self.view(), align),
    {
        let c = ceil(self.0, align);
        proof {
            lemma_in_width_masked(c);
        }
        PhysAddr::new(c)
    }

    /// The offset of the address within a block of `align` bytes.
    pub fn page_offset(&self, align: u64) -> (r: u64)
        requires
            is_pow2(align),
        ensures
            r == self.view() % align,
    {
        self.offset(align)
    }

    /// Whether the address is a multiple of `align`.
    pub fn aligned(&self, align: u64) -> (r: bool)
        requires
            is_pow2(align),
        ensures
            r == (self.view() % align == 0),
    {
        self.is_aligned(align)
    }

    /// The address `rhs` bytes further on; the sum must stay within the width.
    pub fn plus(&self, rhs: u64) -> (r: PhysAddr)
        requires
            self.view() + rhs <= ADDR_MASK48,
        ensures
            r.view() == self.view() + rhs,
    {
        PhysAddr(self.0 + rhs)
    }

    /// The address `rhs` bytes before; it must not go below zero.
    pub fn minus(&self, rhs: u64) -> (r: PhysAddr)
        requires
            rhs <= self.view(),
        ensures
            r.view() == self.view() - rhs,
    {
        proof {
            use_type_invariant(&*self);
        }
        PhysAddr(self.0 - rhs)
    }
}

impl Addr for PhysAddr {
    open spec fn spec_addr(&self) -> u64 {
        self.view()
    }

    open spec fn spec_base() -> u64 {
        0
    }

    fn base() -> (r: u64) {
        0
    }

    fn addr(&self) -> (r: u64) {
        self.0
    }
}

impl KernelAddr {
    #[verifier::type_invariant]
    spec fn in_kernel_half(self) -> bool {
        self.0 & KERNEL_BASE == KERNEL_BASE
    }

    /// The address as an integer.
    pub closed spec fn view(self) -> u64 {
        self.0
    }

    /// Makes the kernel address whose offset is the low 48 bits of `addr`.
    pub fn new(addr: u64) -> (r: KernelAddr)
        ensures
            r.view() == (addr & ADDR_MASK48) | KERNEL_BASE,
    {
        let a = (addr & ADDR_MASK48) | KERNEL_BASE;
        assert(((addr & 0x0000_ffff_ffff_ffffu64) | 0xffff_0000_0000_0000u64) & 0xffff_0000_0000_0000u64
            == 0xffff_0000_0000_0000u64) by (bit_vector);
        KernelAddr(a)
    }

    /// Rounds down to a multiple of `align`, staying in the kernel half.
    pub fn floor(&self, align: u64) -> (r: KernelAddr)
        requires
            is_pow2(align),
        ensures
            r.view() == (spec_floor(self.view(), align) as u64 & ADDR_MASK48) | KERNEL_BASE,
    {
        KernelAddr::new(floor(self.0, align))
    }

    /// Rounds up to a multiple of `align`, staying in the kernel half.
    pub fn ceil(&self, align: u64) -> (r: KernelAddr)
        requires
            is_pow2(align),
            spec_ceil(self.view(), align) <= u64::MAX,
        ensures
            r.view() == (spec_ceil(self.view(), align) as u64 & ADDR_MASK48) | KERNEL_BASE,
    {
        KernelAddr::new(ceil(self.0, align))
    }

    /// The address `rhs` bytes further on; the sum must not overflow.
    pub fn plus(&self, rhs: u64) -> (r: KernelAddr)
        requires
            self.view() + rhs <= u64::MAX,
        ensures
            r.view() == ((self.view() + rhs) as u64 & ADDR_MASK48) | KERNEL_BASE,
    {
        KernelAddr::new(self.0 + rhs)
    }
}

impl Addr for KernelAddr {
    open spec fn spec_addr(&self) -> u64 {
        self.view()
    }

    open spec fn spec_base() -> u64 {
        KERNEL_BASE
    }

    fn base() -> (r: u64) {
        KERNEL_BASE
    }

    fn addr(&self) -> (r: u64) {
        self.0
    }
}

impl UserAddr {
    #[verifier::type_invariant]
    spec fn in_width(self) -> bool {
        self.0 <= ADDR_MASK48
    }

    /// The address as an integer.
    pub closed spec fn view(self) -> u64 {
        self.0
    }

    /// Makes an address from the low 48 bits of `addr`.
    pub fn new(addr: u64) -> (r: UserAddr)
        ensures
            r.view() == addr & ADDR_MASK48,
    {
        assert(addr & 0x0000_ffff_ffff_ffffu64 <= 0x0000_ffff_ffff_ffffu64) by (bit_vector);
        UserAddr(addr & ADDR_MASK48)
    }

    /// Rounds down to a multiple of `align`.
    pub fn floor(&self, align: u64) -> (r: UserAddr)
        requires
            is_pow2(align),
        ensures
            r.view() == spec_floor(self.view(), align),
    {
        proof {
            use_type_invariant(&*self);
        }
        UserAddr(floor(self.0, align))
    }

    /// Rounds up to a multiple of `align`; the result stays within the width.
    pub fn ceil(&self, align: u64) -> (r: UserAddr)
        requires
            is_pow2(align),
            spec_ceil(self.view(), align) <= ADDR_MASK48,
        ensures
            r.view() == spec_ceil(self.view(), align),
    {
        let c = ceil(self.0, align);
        proof {
            lemma_in_width_masked(c);
        }
        UserAddr::new(c)
    }

    /// The address `rhs` bytes further on; the sum must stay within the width.
    pub fn plus(&self, rhs: u64) -> (r: UserAddr)
        requires
            self.view() + rhs <= ADDR_MASK48,
        ensures
            r.view() == self.view() + rhs,
    {
        UserAddr(self.0 + rhs)
    }
}

impl UserAddr {
    /// The address as an integer.
    pub fn view_value(&self) -> (r: u64)
        ensures
            r == self.view(),
    {
        self.0
    }
}

impl Addr for UserAddr {
    open spec fn spec_addr(&self) -> u64 {
        self.view()
    }

    open spec fn spec_base() -> u64 {
        0
    }

    fn base() -> (r: u64) {
        0
    }

    fn addr(&self) -> (r: u64) {
        self.0
    }
}

impl VirtAddr {
    #[verifier::type_invariant]
    spec fn in_width(self) -> bool {
        self.0 <= ADDR_MASK48
    }

    /// The address as an integer.
    pub closed spec fn view(self) -> u64 {
        self.0
    }

    /// Makes an address from the low 48 bits of `addr`.
    pub fn new(addr: u64) -> (r: VirtAddr)
        ensures
            r.view() == addr & ADDR_MASK48,
    {
        assert(addr & 0x0000_ffff_ffff_ffffu64 <= 0x0000_ffff_ffff_ffffu64) by (bit_vector);
        VirtAddr(addr & ADDR_MASK48)
    }

    /// Rounds down to a multiple of `align`.
    pub fn floor(&self, align: u64) -> (r: VirtAddr)
        requires
            is_pow2(align),
        ensures
            r.view() == spec_floor(self.view(), align),
    {
        proof {
            use_type_invariant(&*self);
        }
        VirtAddr(floor(self.0, align))
    }

    /// Rounds up to a multiple of `align`; the result stays within the width.
    pub fn ceil(&self, align: u64) -> (r: VirtAddr)
        requires
            is_pow2(align),
            spec_ceil(self.view(), align) <= ADDR_MASK48,
        ensures
            r.view() == spec_ceil(self.view(), align),
    {
        let c = ceil(self.0, align);
        proof {
            lemma_in_width_masked(c);
        }
        VirtAddr::new(c)
    }

    /// The offset of the address within a block of `align` bytes.
    pub fn page_offset(&self, align: u64) -> (r: u64)
        requires
            is_pow2(align),
        ensures
            r == self.view() % align,
    {
        self.offset(align)
    }

    /// Whether the address is a multiple of `align`.
    pub fn aligned(&self, align: u64) -> (r: bool)
        requires
            is_pow2(align),
        ensures
            r == (self.view() % align == 0),
    {
        self.is_aligned(align)
    }
}

impl Addr for VirtAddr {
    open spec fn spec_addr(&self) -> u64 {
        self.view()
    }

    open spec fn spec_base() -> u64 {
        0
    }

    fn base() -> (r: u64) {
        0
    }

    fn addr(&self) -> (r: u64) {
        self.0
    }
}

/// The kernel address at which physical address `paddr` is seen.
pub fn phys_to_kernel(paddr: PhysAddr) -> (r: KernelAddr)
    ensures
        r.view() == paddr.view() | KERNEL_BASE,
{
    proof {
        use_type_invariant(&paddr);
        let x = paddr.view();
        assert(x <= 0x0000_ffff_ffff_ffffu64 ==> x & 0x0000_ffff_ffff_ffffu64 == x) by (bit_vector);
    }
    KernelAddr::new(paddr.addr())
}

/// The physical address seen at kernel address `kaddr`.
pub fn kernel_to_phys(kaddr: KernelAddr) -> (r: PhysAddr)
    ensures
        r.view() == kaddr.view() & ADDR_MASK48,
{
    PhysAddr::new(kaddr.addr())
}

/// The kernel address of physical address `paddr`: the address plus the
/// kernel base.
pub fn phys_to_virt(paddr: PhysAddr) -> (r: KernelAddr)
    ensures
        r.view() == paddr.view() + KERNEL_BASE,
{
    proof {
        use_type_invariant(&paddr);
        let x = paddr.view();
        assert(x <= 0x0000_ffff_ffff_ffffu64 ==> x | 0xffff_0000_0000_0000u64 == (x + 0xffff_0000_0000_0000u64) as u64)
            by (bit_vector);
    }
    phys_to_kernel(paddr)
}

/// The physical address of kernel address `vaddr`: the address less the
/// kernel base.
pub fn virt_to_phys(vaddr: KernelAddr) -> (r: PhysAddr)
    ensures
        r.view() == vaddr.view() - KERNEL_BASE,
{
    proof {
        use_type_invariant(&vaddr);
        let x = vaddr.view();
        assert(x & 0xffff_0000_0000_0000u64 == 0xffff_0000_0000_0000u64
            ==> x & 0x0000_ffff_ffff_ffffu64 == (x - 0xffff_0000_0000_0000u64) as u64) by (bit_vector);
        assert(x & 0xffff_0000_0000_0000u64 == 0xffff_0000_0000_0000u64 ==> x >= 0xffff_0000_0000_0000u64) by (bit_vector);
    }
    kernel_to_phys(vaddr)
}

/// Seeing a physical address through the kernel window and back gives the
/// same address.
pub proof fn lemma_kernel_round_trip(a: PhysAddr)
    requires
        a.view() <= ADDR_MASK48,
    ensures
        ((a.view() | KERNEL_BASE) & ADDR_MASK48) == a.view(),
{
    let x = a.view();
    assert(x <= 0x0000_ffff_ffff_ffffu64 ==> (x | 0xffff_0000_0000_0000u64) & 0x0000_ffff_ffff_ffffu64 == x)
        by (bit_vector);
}

} // verus!
