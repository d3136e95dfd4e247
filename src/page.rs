//! Page numbers, page levels and the paging mode of the architecture.
use vstd::prelude::*;
use crate::addr::{PhysAddr, VirtAddr, Addr, ADDR_MASK48, is_pow2, spec_floor};
use vstd::arithmetic::power2::pow2;
use core::marker::PhantomData;

verus! {

/// A level of the page-table tree; level 0 holds the leaf entries for base
/// pages.
#[derive(Clone, Copy, PartialEq, Eq, Debug)]
pub struct PageLevel(pub u8);

impl PageLevel {
    /// The level of base-page leaf entries.
    pub fn leaf_level() -> (r: PageLevel)
        ensures
            r.0 == 0,
    {
        PageLevel(0)
    }
}

/// An alignment counted in base pages (1 for 4 KiB, 512 for 2 MiB, ...).
#[derive(Clone, Copy, PartialEq, Eq, Debug)]
pub struct PageAlign(pub u64);

impl PageAlign {
    /// The alignment as a number of pages.
    pub fn value(&self) -> (r: u64)
        ensures
            r == self.0,
    {
        self.0
    }
}

/// A physical page number: a physical address shifted right by the
/// base-page bits.
#[derive(Clone, Copy, PartialEq, Eq, Debug)]
pub struct PhysPageNum(pub u64);

/// A virtual page number: a virtual address shifted right by the
/// base-page bits.
#[derive(Clone, Copy, PartialEq, Eq, Debug)]
pub struct VirtPageNum(pub u64);

impl PhysPageNum {
    /// The address of the first byte of the page.
    pub fn addr(&self) -> (r: PhysAddr)
        ensures
            r.view() == ((self.0 << 12u64) & ADDR_MASK48),
    {
        PhysAddr::new(self.0 << 12u64)
    }

    /// The page that holds `paddr`.
    pub fn new(paddr: PhysAddr) -> (r: PhysPageNum)
        ensures
            r.0 == paddr.view() / 4096,
    {
        PhysPageNum(paddr.num())
    }

    /// The following page number, wrapping at the top of the range.
    pub fn next_page(&self) -> (r: PhysPageNum)
        ensures
            r.0 == if self.0 == u64::MAX { 0 } else { self.0 + 1 },
    {
        PhysPageNum(self.0.wrapping_add(1))
    }

    /// Whether the page lies in `[begin, end)`, where a range whose end is
    /// below its beginning wraps around the top.
    pub fn is_within_range(&self, begin: PhysPageNum, end: PhysPageNum) -> (r: bool)
        ensures
            r == if begin.0 <= end.0 {
                begin.0 <= self.0 && self.0 < end.0
            } else {
                begin.0 <= self.0 || self.0 < end.0
            },
    {
        if begin.0 <= end.0 {
            begin.0 <= self.0 && self.0 < end.0
        } else {
            begin.0 <= self.0 || self.0 < end.0
        }
    }
}

/// The page number of an aligned address gives back that address.
pub proof fn lemma_page_number_inverse(a: PhysAddr)
    requires
        a.view() <= ADDR_MASK48,
        a.view() % 4096 == 0,
    ensures
        ((((a.view() / 4096) as u64) << 12u64) & ADDR_MASK48) == a.view(),
{
    let x = a.view();
    assert(x >> 12u64 == x / 4096) by (bit_vector);
    assert(x & 0xfffu64 == x % 4096) by (bit_vector);
    assert(x <= 0x0000_ffff_ffff_ffffu64 && x & 0xfffu64 == 0 ==> ((x >> 12u64) << 12u64) & 0x0000_ffff_ffff_ffffu64 == x)
        by (bit_vector);
}

impl VirtPageNum {
    /// The address of the first byte of the page.
    pub fn addr(&self) -> (r: VirtAddr)
        ensures
            r.view() == ((self.0 << 12u64) & ADDR_MASK48),
    {
        VirtAddr::new(self.0 << 12u64)
    }

    /// The page that holds `vaddr`.
    pub fn new(vaddr: VirtAddr) -> (r: VirtPageNum)
        ensures
            r.0 == vaddr.view() / 4096,
    {
        VirtPageNum(vaddr.num())
    }
}

/// Alignment in pages of a block mapped at `level` on a four-level,
/// 512-entry table: 512 to the power of the level.
pub open spec fn level_align(level: nat) -> nat
    decreases level,
{
    if level == 0 {
        1
    } else {
        512 * level_align((level - 1) as nat)
    }
}

/// The index into the table at `level` for virtual page `vpn`.
pub open spec fn spec_vpn_index(vpn: u64, level: nat) -> nat {
    ((vpn as nat) / level_align(level)) % 512
}

/// The paging scheme of an architecture: its levels, their alignment and
/// how a page number selects an entry at each level.
pub trait PageMode {
    /// The highest level, that of the root table.
    spec fn spec_max_level() -> nat;

    /// Alignment in pages of a block at `level`.
    spec fn spec_align(level: nat) -> nat;

    /// Index of `vpn` in the table at `level`.
    spec fn spec_index(vpn: u64, level: nat) -> nat;

    /// The highest level that can hold a block leaf entry.
    spec fn spec_max_block_level() -> nat;

    /// Number of offset bits in a base page.
    spec fn spec_frame_size_bits() -> u64;

    /// Number of offset bits in a base page.
    fn frame_size_bits() -> (r: u64)
        ensures
            r == Self::spec_frame_size_bits(),
    ;

    /// The level of the root table.
    fn max_level() -> (r: PageLevel)
        ensures
            r.0 == Self::spec_max_level(),
    ;

    /// Alignment in pages of a block at `level`.
    fn get_align_for_level(level: PageLevel) -> (r: PageAlign)
        requires
            level.0 <= Self::spec_max_level(),
        ensures
            r.0 == Self::spec_align(level.0 as nat),
    ;

    /// Index of `vpn` in the table at `level`.
    fn vpn_index(vpn: VirtPageNum, level: PageLevel) -> (r: usize)
        requires
            level.0 <= Self::spec_max_level(),
        ensures
            r == Self::spec_index(vpn.0, level.0 as nat),
            r < 512,
    ;

    /// The page number that `vpn` becomes when its index at `level` is
    /// replaced by `idx` and the indices below are cleared.
    fn vpn_level_index(vpn: VirtPageNum, level: PageLevel, idx: usize) -> (r: VirtPageNum)
        requires
            level.0 <= Self::spec_max_level(),
            idx < 512,
            vpn.0 < 0x10_0000_0000_0000,
        ensures
            r.0 == vpn.0 - vpn.0 as nat % (512 * Self::spec_align(level.0 as nat)) + idx * Self::spec_align(level.0 as nat),
    ;

    /// The levels that can hold a leaf entry, from the highest down to
    /// `level`, both included.
    fn visit_levels_until(level: PageLevel) -> (r: Vec<PageLevel>)
        requires
            level.0 <= Self::spec_max_block_level(),
        ensures
            r@.len() == Self::spec_max_block_level() - level.0 + 1,
            forall|i: int| 0 <= i < r@.len() ==> r@[i].0 == Self::spec_max_block_level() - i,
    ;

    /// The levels from the root down to the one above `level`.
    fn visit_levels_before(level: PageLevel) -> (r: Vec<PageLevel>)
        requires
            level.0 <= Self::spec_max_level(),
        ensures
            r@.len() == Self::spec_max_level() - level.0,
            forall|i: int| 0 <= i < r@.len() ==> r@[i].0 == Self::spec_max_level() - i,
    ;

    /// The levels from `level` down to the leaf level.
    fn visit_levels_from(level: PageLevel) -> (r: Vec<PageLevel>)
        requires
            level.0 <= Self::spec_max_level(),
        ensures
            r@.len() == level.0 + 1,
            forall|i: int| 0 <= i < r@.len() ==> r@[i].0 == level.0 - i,
    ;
}

/// The AArch64 4 KiB-granule, four-level paging scheme.
#[derive(Clone, Copy, PartialEq, Eq, Debug)]
pub struct ARM64;

/// The levels from `hi` down to `lo`, both included.
fn levels_down(hi: u8, lo: u8) -> (r: Vec<PageLevel>)
    requires
        lo <= hi + 1,
    ensures
        r@.len() == hi + 1 - lo,
        forall|i: int| 0 <= i < r@.len() ==> r@[i].0 == hi - i,
{
    let mut r: Vec<PageLevel> = Vec::new();
    let mut l: u8 = hi;
    let mut done = hi < lo;
    while !done
        invariant
            lo <= hi + 1,
            done ==> r@.len() == hi + 1 - lo,
            !done ==> lo <= l <= hi && r@.len() == hi - l,
            forall|i: int| 0 <= i < r@.len() ==> r@[i].0 == hi - i,
        decreases l + 1 - (if done { l + 1 } else { 0int }),
    {
        r.push(PageLevel(l));
        if l == lo {
            done = true;
        } else {
            l = l - 1;
        }
    }
    r
}

impl PageMode for ARM64 {
    open spec fn spec_max_level() -> nat {
        3
    }

    open spec fn spec_align(level: nat) -> nat {
        level_align(level)
    }

    open spec fn spec_index(vpn: u64, level: nat) -> nat {
        spec_vpn_index(vpn, level)
    }

    open spec fn spec_max_block_level() -> nat {
        2
    }

    open spec fn spec_frame_size_bits() -> u64 {
        12
    }

    fn frame_size_bits() -> (r: u64) {
        12
    }

    fn max_level() -> (r: PageLevel) {
        PageLevel(3)
    }

    fn get_align_for_level(level: PageLevel) -> (r: PageAlign) {
        proof {
            reveal_with_fuel(level_align, 4);
        }
        if level.0 == 0 {
            PageAlign(1)
        } else if level.0 == 1 {
            PageAlign(512)
        } else if level.0 == 2 {
            PageAlign(512 * 512)
        } else {
            PageAlign(512 * 512 * 512)
        }
    }

    fn vpn_index(vpn: VirtPageNum, level: PageLevel) -> (r: usize) {
        proof {
            reveal_with_fuel(level_align, 4);
        }
        let v = vpn.0;
        let shift: u64 = (level.0 as u64) * 9;
        let r = (v >> shift) & 511;
        proof {
            assert(v >> 0u64 == v / 1) by (bit_vector);
            assert(v >> 9u64 == v / 512) by (bit_vector);
            assert(v >> 18u64 == v / 0x40000) by (bit_vector);
            assert(v >> 27u64 == v / 0x8000000) by (bit_vector);
            let q = v >> shift;
            assert(q & 511u64 == q % 512) by (bit_vector);
        }
        r as usize
    }

    fn vpn_level_index(vpn: VirtPageNum, level: PageLevel, idx: usize) -> (r: VirtPageNum) {
        proof {
            reveal_with_fuel(level_align, 4);
        }
        let v = vpn.0;
        let i = idx as u64;
        if level.0 == 0 {
            VirtPageNum(v - v % 512 + i)
        } else if level.0 == 1 {
            VirtPageNum(v - v % 0x4_0000 + i * 512)
        } else if level.0 == 2 {
            VirtPageNum(v - v % 0x800_0000 + i * 0x4_0000)
        } else {
            VirtPageNum(v - v % 0x10_0000_0000 + i * 0x800_0000)
        }
    }

    fn visit_levels_until(level: PageLevel) -> (r: Vec<PageLevel>) {
        levels_down(2, level.0)
    }

    fn visit_levels_before(level: PageLevel) -> (r: Vec<PageLevel>) {
        levels_down(3, level.0 + 1)
    }

    fn visit_levels_from(level: PageLevel) -> (r: Vec<PageLevel>) {
        levels_down(level.0, 0)
    }
}

/// A page size, in bytes.
pub trait PageSize {
    /// The page size in bytes.
    spec fn spec_size() -> u64;

    /// The page size in bytes.
    fn size() -> (r: u64)
        ensures
            r == Self::spec_size(),
            is_pow2(r),
    ;
}

/// A base page of 4 KiB.
#[derive(Clone, Copy, PartialEq, Eq, Debug)]
pub struct Size4KiB;

/// A huge page of 2 MiB.
#[derive(Clone, Copy, PartialEq, Eq, Debug)]
pub struct Size2MiB;

/// A giant page of 1 GiB.
#[derive(Clone, Copy, PartialEq, Eq, Debug)]
pub struct Size1GiB;

impl PageSize for Size4KiB {
    open spec fn spec_size() -> u64 {
        4096
    }

    fn size() -> (r: u64) {
        proof {
            vstd::arithmetic::power2::lemma2_to64();
        }
        4096
    }
}

impl PageSize for Size2MiB {
    open spec fn spec_size() -> u64 {
        0x20_0000
    }

    fn size() -> (r: u64) {
        proof {
            vstd::arithmetic::power2::lemma2_to64();
        }
        0x20_0000
    }
}

impl PageSize for Size1GiB {
    open spec fn spec_size() -> u64 {
        0x4000_0000
    }

    fn size() -> (r: u64) {
        proof {
            vstd::arithmetic::power2::lemma2_to64();
        }
        0x4000_0000
    }
}

/// A virtual memory page of size `S`.
pub struct Page<S: PageSize> {
    start_address: VirtAddr,
    size: PhantomData<S>,
}

/// Index into the table at `level` (0 is the root) for virtual address `va`.
pub open spec fn spec_table_index(va: u64, level: nat) -> nat {
    ((va as nat) / pow2((12 + 9 * (3 - level)) as nat)) % 512
}

impl<S: PageSize> Page<S> {
    /// A page starts at a multiple of its size.
    #[verifier::type_invariant]
    spec fn start_aligned(self) -> bool {
        S::spec_size() > 0 && self.start_address.view() % S::spec_size() == 0
    }

    /// The address of the first byte of the page.
    pub closed spec fn spec_start(self) -> u64 {
        self.start_address.view()
    }

    /// The page that holds `address`.
    pub fn containing_address(address: VirtAddr) -> (r: Self)
        ensures
            r.spec_start() == spec_floor(address.view(), S::spec_size()),
            r.spec_start() % S::spec_size() == 0,
    {
        let size = S::size();
        let start = address.floor(size);
        proof {
            crate::addr::lemma_mask_is_mod(address.view(), size);
            let a = address.view() as int;
            let b = size as int;
            vstd::arithmetic::div_mod::lemma_fundamental_div_mod(a, b);
            assert(a - a % b == (a / b) * b) by (nonlinear_arith)
                requires a == b * (a / b) + a % b;
            vstd::arithmetic::div_mod::lemma_mod_multiples_basic(a / b, b);
        }
        Page { start_address: start, size: PhantomData }
    }

    /// The page that starts at `address`; an error where `address` is not
    /// a multiple of the page size.
    pub fn from_start_address(address: VirtAddr) -> (r: Result<Self, ()>)
        ensures
            r.is_ok() == (address.view() % S::spec_size() == 0),
            r.is_ok() ==> r.unwrap().spec_start() == address.view(),
    {
        if !address.aligned(S::size()) {
            return Err(());
        }
        Ok(Page::containing_address(address))
    }

    /// The address of the first byte of the page, a multiple of the page
    /// size.
    pub fn start_address(&self) -> (r: VirtAddr)
        ensures
            r.view() == self.spec_start(),
            r.view() % S::spec_size() == 0,
    {
        proof {
            use_type_invariant(&*self);
        }
        self.start_address
    }

    /// The page size in bytes.
    pub fn size(&self) -> (r: u64)
        ensures
            r == S::spec_size(),
    {
        S::size()
    }

    /// Index of the page in the root table.
    pub fn p0_index(&self) -> (r: usize)
        ensures
            r == spec_table_index(self.spec_start(), 0),
    {
        table_index(self.start_address.addr(), 0)
    }

    /// Index of the page in the table of the level below the root.
    pub fn p1_index(&self) -> (r: usize)
        ensures
            r == spec_table_index(self.spec_start(), 1),
    {
        table_index(self.start_address.addr(), 1)
    }
}

impl Page<Size2MiB> {
    /// Index of the page in the table that holds 2 MiB entries.
    pub fn p2_index(&self) -> (r: usize)
        ensures
            r == spec_table_index(self.spec_start(), 2),
    {
        table_index(self.start_address.addr(), 2)
    }
}

impl Page<Size4KiB> {
    /// Index of the page in the table that holds 2 MiB entries.
    pub fn p2_index(&self) -> (r: usize)
        ensures
            r == spec_table_index(self.spec_start(), 2),
    {
        table_index(self.start_address.addr(), 2)
    }

    /// Index of the page in the table that holds 4 KiB entries.
    pub fn p3_index(&self) -> (r: usize)
        ensures
            r == spec_table_index(self.spec_start(), 3),
    {
        table_index(self.start_address.addr(), 3)
    }
}

/// Index into the table at `level` (0 is the root) for virtual address `va`.
pub fn table_index(va: u64, level: usize) -> (r: usize)
    requires
        level <= 3,
    ensures
        r == spec_table_index(va, level as nat),
        r < 512,
{
    proof {
        vstd::arithmetic::power2::lemma2_to64_rest();
    }
    let shift: u64 = 12 + 9 * (3 - level as u64);
    let r = (va >> shift) & 0x1ff;
    proof {
        vstd::bits::lemma_u64_shr_is_div(va, shift);
        let q = va >> shift;
        assert(q & 0x1ffu64 == q % 512) by (bit_vector);
    }
    r as usize
}

} // verus!
