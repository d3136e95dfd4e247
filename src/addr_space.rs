//! Address spaces: a root translation table, the tables below it, and the
//! list of mapped regions with the frames that back them.
use vstd::prelude::*;
use vstd::arithmetic::div_mod::lemma_fundamental_div_mod;
use crate::addr::{PhysAddr, VirtAddr, Addr, ADDR_MASK48};
use crate::frame::{DataFrame, Frame, FrameSize, FRAME, GuardFrame};
use crate::frame_allocator::{StackFrameAllocator, FrameAllocError, lemma_prefix_bytes_mono, prefix_bytes, pages_of, frame_plan, suffix_start, bump_error};
use crate::page::{table_index, spec_table_index, PageMode, VirtPageNum, PhysPageNum, ARM64, level_align};
use crate::page_table::{
    PageTableEntry, PageTableFlagsField, flag_bits, ADDR_MASK, TABLE_OR_BLOCK, VALID, PGFLAG_MASK, AF, SH_INNERSHARE,
    AP_EL0_RW_ELX_RW, AP_EL0_OR_ELX_OR, UXN, PXN,
};
use crate::solver::{MaperSolver, MapChunk, lemma_solver_coverage, solution, lemma_multiples_apart};

verus! {

/// Why a read from an address space failed.
#[derive(Clone, Copy, PartialEq, Eq, Debug)]
pub enum AccessSpaceError {
    /// No region covers the address, or a frame without memory does.
    UnExisted,
    /// The memory is reserved but not there yet.
    LazyAlloced,
}

/// Why a mapping failed.
#[derive(Clone, Copy, PartialEq, Eq, Debug)]
pub enum MapError {
    /// The range meets a region that is already mapped.
    Overlap,
    /// No frame could be had for a translation table.
    NoTableFrame(FrameAllocError),
    /// No region holds the address.
    NoRegion,
    /// No frames could be had to back the range.
    NoFrame(FrameAllocError),
}

/// The leaf entry that maps memory at `pa` at `layer` with `flag`: a page
/// entry at the last level, a block entry above it.
pub open spec fn data_leaf(pa: u64, layer: nat, flag: Option<PageTableFlagsField>) -> u64 {
    if layer == 3 {
        pa | flag_bits(flag) | TABLE_OR_BLOCK | VALID
    } else {
        ((pa | flag_bits(flag)) & !TABLE_OR_BLOCK) | VALID
    }
}

/// The block of chunk `c` at virtual page `v` maps the physical page as
/// far from `ppn` as `v` is from `vpn`: the walk for its address, at the
/// level of the chunk, reaches the leaf for it.
pub open spec fn block_installed(space: &VmSpace, c: MapChunk, v: int, vpn: int, ppn: int, flag: Option<PageTableFlagsField>) -> bool {
    let layer = (3 - c.level.0) as nat;
    let w = space.walk((v * 4096) as u64, layer);
    &&& w is Some
    &&& space.spec_entries()[w.unwrap()].entry == data_leaf(((ppn + v - vpn) * 4096) as u64, layer, flag)
}

/// Every block of every chunk, from `vpn` onto `ppn`, is installed.
pub open spec fn chunks_installed(
    space: &VmSpace,
    cs: Seq<MapChunk>,
    vpn: int,
    ppn: int,
    flag: Option<PageTableFlagsField>,
    upto: int,
) -> bool {
    forall|i: int, v: int| 0 <= i < upto && cs[i].start.0 <= v < cs[i].end.0
        && (v - cs[i].start.0) % (level_align(cs[i].level.0 as nat) as int) == 0
        ==> #[trigger] block_installed(space, cs[i], v, vpn, ppn, flag)
}

/// The frame size of blocks at `level`.
pub open spec fn level_size_of(level: nat) -> FrameSize {
    if level == 0 {
        FrameSize::Size4Kb
    } else if level == 1 {
        FrameSize::Size2Mb
    } else {
        FrameSize::Size1Gb
    }
}

/// Shifting a page number below 2^36 by the page bits multiplies it by
/// 4096 and stays within the width.
proof fn lemma_page_shift(x: u64)
    requires
        x < 0x10_0000_0000,
    ensures
        x << 12u64 == x * 4096,
        x * 4096 <= ADDR_MASK48,
{
    assert(x < 0x10_0000_0000u64 ==> x << 12u64 == (x * 4096u64) as u64) by (bit_vector);
}

/// A multiple of `a`, scaled by 4096, is a multiple of `4096 a`.
proof fn lemma_scale_mod(w: int, a: int)
    requires
        a > 0,
        w % a == 0,
    ensures
        (w * 4096) % (4096 * a) == 0,
{
    lemma_fundamental_div_mod(w, a);
    let q = w / a;
    assert(w * 4096 == (4096 * a) * q) by (nonlinear_arith)
        requires w == a * q + 0;
    vstd::arithmetic::div_mod::lemma_mod_multiples_basic(q, 4096 * a);
    assert((4096 * a) * q == q * (4096 * a)) by (nonlinear_arith);
}

/// The next multiple of `a` after a multiple of `a`.
proof fn lemma_mod_step(x: int, a: int)
    requires
        a > 0,
        x % a == 0,
    ensures
        (x + a) % a == 0,
{
    vstd::arithmetic::div_mod::lemma_mod_add_multiples_vanish(x, a);
}

/// `x` is a multiple of `a` when `y` and `x - y` are.
proof fn lemma_mod_of_diff(x: int, y: int, a: int)
    requires
        a > 0,
        (x - y) % a == 0,
        y % a == 0,
    ensures
        x % a == 0,
{
    lemma_fundamental_div_mod(x - y, a);
    lemma_fundamental_div_mod(y, a);
    let (q1, q2) = ((x - y) / a, y / a);
    assert(x == a * (q1 + q2)) by (nonlinear_arith)
        requires x - y == a * q1 + 0, y == a * q2 + 0;
    vstd::arithmetic::div_mod::lemma_mod_multiples_basic(q1 + q2, a);
    assert(a * (q1 + q2) == (q1 + q2) * a) by (nonlinear_arith);
}

/// Where frame `j` of `frames`, laid end to end from `va`, begins.
pub open spec fn frame_start(va: int, frames: Seq<Frame>, j: int) -> int {
    va + frames_bytes(frames.subrange(0, j))
}

/// Every frame, laid end to end from `va`, begins at a multiple of its own
/// size, and all of them end within the virtual address width.
pub open spec fn frames_aligned(va: int, frames: Seq<Frame>) -> bool {
    &&& va + frames_bytes(frames) <= ADDR_MASK48 + 1
    &&& forall|j: int| 0 <= j < frames.len()
        ==> #[trigger] frame_start(va, frames, j) % (frames[j].spec_frame_size().spec_bytes() as int) == 0
}

/// After a mapping, the walk for the start of each frame reaches, at the
/// level of the frame's size, the leaf entry for that frame with `flag`.
pub open spec fn frames_installed(space: &VmSpace, va: int, frames: Seq<Frame>, flag: Option<PageTableFlagsField>) -> bool {
    forall|j: int| 0 <= j < frames.len() ==> {
        let layer = frame_layer(frames[j].spec_frame_size());
        let w = space.walk(#[trigger] frame_start(va, frames, j) as u64, layer);
        &&& w is Some
        &&& space.spec_entries()[w.unwrap()].entry == leaf_bits(frames[j], layer, flag)
    }
}

/// `x` is the address of one of the tables.
pub open spec fn is_table(addrs: Seq<PhysAddr>, x: int) -> bool {
    exists|t: int| 0 <= t < addrs.len() && #[trigger] addrs[t].view() == x
}

/// `now` is `before` after handing out only 4 KiB pages that are tables in
/// `addrs`: the last entries of the 4 KiB free list, and pages at the
/// cursor, one after the other.
pub open spec fn took_tables(before: StackFrameAllocator, now: StackFrameAllocator, addrs: Seq<PhysAddr>) -> bool {
    &&& now.limit() == before.limit()
    &&& now.free(1) == before.free(1)
    &&& now.free(2) == before.free(2)
    &&& now.free(0).len() <= before.free(0).len()
    &&& now.free(0) == before.free(0).subrange(0, now.free(0).len() as int)
    &&& forall|i: int| now.free(0).len() <= i < before.free(0).len() ==> is_table(addrs, #[trigger] before.free(0)[i].view() as int)
    &&& before.cursor() <= now.cursor()
    &&& (now.cursor() - before.cursor()) % 4096 == 0
    &&& forall|c: int| before.cursor() <= c < now.cursor() && (c - before.cursor()) % 4096 == 0 ==> #[trigger] is_table(addrs, c)
}

proof fn lemma_prefix_trans(a: Seq<PhysAddr>, b: Seq<PhysAddr>, c: Seq<PhysAddr>)
    requires
        b.len() >= a.len(),
        b.subrange(0, a.len() as int) == a,
        c.len() >= b.len(),
        c.subrange(0, b.len() as int) == b,
    ensures
        c.subrange(0, a.len() as int) == a,
{
    assert(c.subrange(0, a.len() as int) =~= b.subrange(0, a.len() as int));
}

proof fn lemma_took_refl(a: StackFrameAllocator, addrs: Seq<PhysAddr>)
    ensures
        took_tables(a, a, addrs),
{
    assert(a.free(0).subrange(0, a.free(0).len() as int) =~= a.free(0));
}

proof fn lemma_is_table_grow(a1: Seq<PhysAddr>, a2: Seq<PhysAddr>, x: int)
    requires
        a2.len() >= a1.len(),
        a2.subrange(0, a1.len() as int) == a1,
        is_table(a1, x),
    ensures
        is_table(a2, x),
{
    let t = choose|t: int| 0 <= t < a1.len() && #[trigger] a1[t].view() == x;
    assert(a2.subrange(0, a1.len() as int)[t] == a2[t]);
}

proof fn lemma_took_trans(a: StackFrameAllocator, b: StackFrameAllocator, c: StackFrameAllocator, a1: Seq<PhysAddr>, a2: Seq<PhysAddr>)
    requires
        took_tables(a, b, a1),
        took_tables(b, c, a2),
        a2.len() >= a1.len(),
        a2.subrange(0, a1.len() as int) == a1,
    ensures
        took_tables(a, c, a2),
{
    assert(c.free(0) =~= a.free(0).subrange(0, c.free(0).len() as int));
    assert forall|i: int| c.free(0).len() <= i < a.free(0).len() implies is_table(a2, #[trigger] a.free(0)[i].view() as int) by {
        if i < b.free(0).len() {
            assert(b.free(0)[i] == a.free(0)[i]);
        } else {
            lemma_is_table_grow(a1, a2, a.free(0)[i].view() as int);
        }
    }
    assert forall|x: int| a.cursor() <= x < c.cursor() && (x - a.cursor()) % 4096 == 0 implies #[trigger] is_table(a2, x) by {
        if x < b.cursor() {
            lemma_is_table_grow(a1, a2, x);
        } else {
            lemma_mod_neg(b.cursor() - a.cursor());
            lemma_mod_sum(x - a.cursor(), -(b.cursor() - a.cursor()));
            assert((x - b.cursor()) % 4096 == 0);
        }
    }
    assert((c.cursor() - a.cursor()) % 4096 == 0) by {
        lemma_mod_sum(c.cursor() - b.cursor(), b.cursor() - a.cursor());
    }
}

proof fn lemma_mod_neg(x: int)
    requires
        x % 4096 == 0,
    ensures
        (-x) % 4096 == 0,
{
    lemma_fundamental_div_mod(x, 4096);
    let q = x / 4096;
    assert(-x == 4096 * (-q)) by (nonlinear_arith)
        requires x == 4096 * q + 0;
    vstd::arithmetic::div_mod::lemma_mod_multiples_basic(-q, 4096);
}

proof fn lemma_mod_sum(x: int, y: int)
    requires
        x % 4096 == 0,
        y % 4096 == 0,
    ensures
        (x + y) % 4096 == 0,
{
    lemma_fundamental_div_mod(x, 4096);
    lemma_fundamental_div_mod(y, 4096);
    let (q1, q2) = (x / 4096, y / 4096);
    assert(x + y == (q1 + q2) * 4096) by (nonlinear_arith)
        requires x == 4096 * q1 + 0, y == 4096 * q2 + 0;
    vstd::arithmetic::div_mod::lemma_mod_multiples_basic(q1 + q2, 4096);
}

proof fn lemma_table_at_none_of(addrs: Seq<PhysAddr>, x: int)
    requires
        !is_table(addrs, x),
    ensures
        forall|j: int| 0 <= j < addrs.len() ==> addrs[j].view() != x,
{
    assert forall|j: int| 0 <= j < addrs.len() implies addrs[j].view() != x by {
        if addrs[j].view() == x {
            assert(is_table(addrs, x));
        }
    }
}

/// `e` is a failure to build tables that the state explains: no 4 KiB
/// page was left in `alloc`, or the page handed out is already a table of
/// `space`.
pub open spec fn table_failure(e: MapError, space: &VmSpace, alloc: &StackFrameAllocator) -> bool {
    match e {
        MapError::NoTableFrame(_) => !alloc.can_give_page(),
        _ => false,
    }
}

/// Attribute bits of a user range: normal memory, inner shareable,
/// accessed; read-write, or read-only, at EL0; never executable at EL1,
/// and at EL0 only when `exec`.
pub open spec fn spec_segment_flags(read: bool, write: bool, exec: bool) -> u64 {
    SH_INNERSHARE | AF | (if read && write {
        AP_EL0_RW_ELX_RW
    } else if read {
        AP_EL0_OR_ELX_OR
    } else {
        0
    }) | (if exec {
        PXN
    } else {
        UXN | PXN
    })
}

/// Attribute bits of a user range with the given permissions.
pub fn segment_flags(read: bool, write: bool, exec: bool) -> (r: PageTableFlagsField)
    ensures
        r.value == spec_segment_flags(read, write, exec),
{
    let ap: u64 = if read && write {
        AP_EL0_RW_ELX_RW
    } else if read {
        AP_EL0_OR_ELX_OR
    } else {
        0
    };
    let xn: u64 = if exec {
        PXN
    } else {
        UXN | PXN
    };
    PageTableFlagsField::new(SH_INNERSHARE | AF | ap | xn)
}

/// Bytes covered by the frames.
pub open spec fn frames_bytes(frames: Seq<Frame>) -> int
    decreases frames.len(),
{
    if frames.len() == 0 {
        0
    } else {
        frames[0].spec_frame_size().spec_bytes() + frames_bytes(frames.drop_first())
    }
}

/// The physical address of byte `o` of the frames laid end to end, when a
/// data frame holds it.
pub open spec fn phys_of(frames: Seq<Frame>, o: int) -> Option<int>
    decreases frames.len(),
{
    if frames.len() == 0 || o < 0 {
        None
    } else if o < frames[0].spec_frame_size().spec_bytes() {
        match frames[0] {
            Frame::Data(d) => Some(d.spec_start().view() + o),
            _ => None,
        }
    } else {
        phys_of(frames.drop_first(), o - frames[0].spec_frame_size().spec_bytes())
    }
}

/// One contiguous virtual range, the frames behind it in address order,
/// and the attribute bits of its entries.
#[derive(Debug)]
pub struct VmRegion {
    vaddr: u64,
    size: u64,
    frames: Vec<Frame>,
    flag: Option<PageTableFlagsField>,
}

impl VmRegion {
    /// First virtual address of the region.
    pub closed spec fn spec_start(&self) -> int {
        self.vaddr as int
    }

    /// Length of the region in bytes.
    pub closed spec fn spec_size(&self) -> int {
        self.size as int
    }

    /// The frames, in address order.
    pub closed spec fn spec_frames(&self) -> Seq<Frame> {
        self.frames@
    }

    /// The attribute bits of the region's entries.
    pub closed spec fn spec_flag(&self) -> Option<PageTableFlagsField> {
        self.flag
    }

    /// The region's end does not overflow.
    pub open spec fn wf(&self) -> bool {
        &&& self.spec_start() + self.spec_size() <= u64::MAX
        &&& self.spec_start() + frames_bytes(self.spec_frames()) <= u64::MAX
    }

    /// `va` lies in the region.
    pub open spec fn contains(&self, va: int) -> bool {
        self.spec_start() <= va < self.spec_start() + self.spec_size()
    }

    /// The frames, in address order.
    pub fn get_frames(&self) -> (r: &Vec<Frame>)
        ensures
            r@ == self.spec_frames(),
    {
        &self.frames
    }

    /// Replaces the attribute bits.
    pub fn replace_flag(&mut self, nf: PageTableFlagsField)
        ensures
            final(self).spec_flag() == Some(nf),
            final(self).spec_start() == old(self).spec_start(),
            final(self).spec_size() == old(self).spec_size(),
            final(self).spec_frames() == old(self).spec_frames(),
    {
        self.flag = Some(nf);
    }

    /// First virtual address of the region.
    pub fn start(&self) -> (r: u64)
        ensures
            r == self.spec_start(),
    {
        self.vaddr
    }

    /// Length of the region in bytes.
    pub fn size(&self) -> (r: u64)
        ensures
            r == self.spec_size(),
    {
        self.size
    }

    /// The attribute bits of the region's entries.
    pub fn flag(&self) -> (r: Option<PageTableFlagsField>)
        ensures
            r == self.spec_flag(),
    {
        self.flag
    }

    /// Whether `va` lies in the region.
    pub fn is_in_range(&self, va: u64) -> (r: bool)
        ensures
            r == self.contains(va as int),
    {
        va >= self.vaddr && va - self.vaddr < self.size
    }
}

/// The first region that holds `va`.
pub open spec fn find_region(rs: Seq<VmRegion>, va: int) -> Option<int>
    decreases rs.len(),
{
    if rs.len() == 0 {
        None
    } else {
        match find_region(rs.drop_last(), va) {
            Some(i) => Some(i),
            None => if rs.last().contains(va) {
                Some(rs.len() - 1)
            } else {
                None
            },
        }
    }
}

/// `[va, va + len)` meets one of the regions.
pub open spec fn overlaps(rs: Seq<VmRegion>, va: int, len: int) -> bool {
    exists|i: int| 0 <= i < rs.len() && va < (#[trigger] rs[i]).spec_start() + rs[i].spec_size() && rs[i].spec_start() < va + len
}

/// Index of the first table in `addrs` at `pa`.
pub open spec fn table_at(addrs: Seq<PhysAddr>, pa: int) -> Option<int> {
    if exists|t: int| 0 <= t < addrs.len() && addrs[t].view() == pa && forall|j: int| 0 <= j < t ==> addrs[j].view() != pa {
        Some(choose|t: int| 0 <= t < addrs.len() && addrs[t].view() == pa && forall|j: int| 0 <= j < t ==> addrs[j].view() != pa)
    } else {
        None
    }
}

/// The entry slot (table index times 512 plus entry index) that a walk
/// from table `t` at `level` reaches for `va` at `layer`, following only
/// valid table entries to known tables.
pub open spec fn walk_from(entries: Seq<PageTableEntry>, addrs: Seq<PhysAddr>, t: int, level: nat, va: u64, layer: nat) -> Option<int>
    decreases layer - level,
{
    let slot = t * 512 + spec_table_index(va, level) as int;
    if level >= layer {
        Some(slot)
    } else {
        let e = entries[slot];
        if e.spec_valid() && e.spec_table_bit() {
            match table_at(addrs, (e.entry & ADDR_MASK) as int) {
                Some(t2) => walk_from(entries, addrs, t2, level + 1, va, layer),
                None => None,
            }
        } else {
            None
        }
    }
}

/// An address space: its root table, the other tables, and its regions.
pub struct VmSpace {
    regions: Vec<VmRegion>,
    page_table: DataFrame,
    table_entries: Vec<PageTableEntry>,
    table_addrs: Vec<PhysAddr>,
    table_levels: Ghost<Seq<nat>>,
    table_parents: Ghost<Seq<int>>,
}

impl VmSpace {
    /// The mapped regions, in the order they were mapped.
    pub closed spec fn spec_regions(&self) -> Seq<VmRegion> {
        self.regions@
    }

    /// The entries of all tables, 512 per table, the root first.
    pub closed spec fn spec_entries(&self) -> Seq<PageTableEntry> {
        self.table_entries@
    }

    /// The physical address of each table, the root first.
    pub closed spec fn spec_table_addrs(&self) -> Seq<PhysAddr> {
        self.table_addrs@
    }

    /// The level of each table, the root at level 0.
    pub closed spec fn spec_levels(&self) -> Seq<nat> {
        self.table_levels@
    }

    /// The slot that points to each table, when one does.
    pub closed spec fn spec_parents(&self) -> Seq<int> {
        self.table_parents@
    }

    /// The frame of the root table.
    pub closed spec fn spec_root(&self) -> DataFrame {
        self.page_table
    }

    /// The entry slot that a walk from the root reaches for `va` at `layer`.
    pub open spec fn walk(&self, va: u64, layer: nat) -> Option<int> {
        walk_from(self.spec_entries(), self.spec_table_addrs(), 0, 0, va, layer)
    }

    /// Regions do not overlap nor overflow; the table store holds 512
    /// entries per table, the root first.
    pub open spec fn wf(&self) -> bool {
        &&& forall|i: int| 0 <= i < self.spec_regions().len() ==> (#[trigger] self.spec_regions()[i]).wf()
        &&& forall|i: int, j: int| 0 <= i < j < self.spec_regions().len() ==>
            (#[trigger] self.spec_regions()[i]).spec_start() + self.spec_regions()[i].spec_size()
                <= (#[trigger] self.spec_regions()[j]).spec_start()
            || self.spec_regions()[j].spec_start() + self.spec_regions()[j].spec_size() <= self.spec_regions()[i].spec_start()
        &&& self.spec_table_addrs().len() >= 1
        &&& self.spec_entries().len() == 512 * self.spec_table_addrs().len()
        &&& self.spec_table_addrs()[0] == self.spec_root().spec_start()
        &&& self.spec_levels().len() == self.spec_table_addrs().len()
        &&& self.spec_levels()[0] == 0
        &&& forall|t: int| 0 <= t < self.spec_levels().len() ==> #[trigger] self.spec_levels()[t] <= 3
        &&& unique_addrs(self.spec_table_addrs())
        &&& tree_levels(self.spec_entries(), self.spec_table_addrs(), self.spec_levels())
        &&& self.spec_parents().len() == self.spec_table_addrs().len()
        &&& parent_ok(self.spec_entries(), self.spec_table_addrs(), self.spec_levels(), self.spec_parents())
    }

    /// An empty address space with a fresh, zeroed root table.
    pub fn new(alloc: &mut StackFrameAllocator) -> (r: Result<VmSpace, FrameAllocError>)
        requires
            old(alloc).wf(),
        ensures
            final(alloc).wf(),
            final(alloc).limit() == old(alloc).limit(),
            r.is_ok() ==> {
                let s = r.unwrap();
                &&& s.wf()
                &&& s.spec_regions().len() == 0
                &&& s.spec_table_addrs().len() == 1
                &&& s.spec_root().spec_size() == FrameSize::Size4Kb
                &&& forall|k: int| 0 <= k < 512 ==> (#[trigger] s.spec_entries()[k]).entry == 0
            },
            (old(alloc).free(0).len() > 0 || (old(alloc).cursor() + 4096 <= old(alloc).limit() && old(alloc).cursor() % 4096 == 0))
                <==> r.is_ok(),
            r.is_ok() ==> final(alloc).took_page(&*old(alloc)),
            r.is_err() ==> final(alloc).cursor() == old(alloc).cursor()
                && forall|k: nat| k < 3 ==> #[trigger] final(alloc).free(k) == old(alloc).free(k),
    {
        let root = match alloc.allocate_single_frame(FrameSize::Size4Kb) {
            Ok(f) => f,
            Err(e) => return Err(e),
        };
        let mut entries: Vec<PageTableEntry> = Vec::new();
        let mut i: usize = 0;
        while i < 512
            invariant
                i <= 512,
                entries@.len() == i,
                forall|k: int| 0 <= k < i ==> (#[trigger] entries@[k]).entry == 0,
            decreases 512 - i,
        {
            entries.push(PageTableEntry::new());
            i = i + 1;
        }
        let mut addrs: Vec<PhysAddr> = Vec::new();
        addrs.push(root.frame_addr());
        let ghost lv = seq![0nat];
        let ghost pv = seq![-1int];
        let r = VmSpace {
            regions: Vec::new(),
            page_table: root,
            table_entries: entries,
            table_addrs: addrs,
            table_levels: Ghost(lv),
            table_parents: Ghost(pv),
        };
        proof {
            assert forall|t: int, x: int| 0 <= t < r.spec_table_addrs().len() && 0 <= x < 512 && r.spec_levels()[t] < 3
                && (#[trigger] slot_entry(r.spec_entries(), t, x)).spec_valid() implies false by {
                assert(t == 0);
                assert(slot_entry(r.spec_entries(), t, x).entry == 0);
                lemma_zero_entry_invalid();
            }
        }
        Ok(r)
    }

    /// The physical address of the root table.
    pub fn get_pagetable(&self) -> (r: PhysAddr)
        ensures
            r == self.spec_root().spec_start(),
    {
        self.page_table.frame_addr()
    }

    /// The translation tables as the hardware walker reads them: the
    /// physical address of each table, the root first, and the entries of
    /// all tables, 512 per table in the same order.
    pub fn tables(&self) -> (r: (&Vec<PhysAddr>, &Vec<PageTableEntry>))
        ensures
            r.0@ == self.spec_table_addrs(),
            r.1@ == self.spec_entries(),
    {
        (&self.table_addrs, &self.table_entries)
    }

    /// The regions, in the order they were mapped.
    pub fn regions(&self) -> (r: &Vec<VmRegion>)
        ensures
            r@ == self.spec_regions(),
    {
        &self.regions
    }

    /// Index of the first table at `pa`.
    fn table_index_of(&self, pa: PhysAddr) -> (r: Option<usize>)
        ensures
            r.is_some() == table_at(self.spec_table_addrs(), pa.view() as int).is_some(),
            r.is_some() ==> r.unwrap() == table_at(self.spec_table_addrs(), pa.view() as int).unwrap(),
    {
        let mut t: usize = 0;
        while t < self.table_addrs.len()
            invariant
                t <= self.table_addrs@.len(),
                forall|j: int| 0 <= j < t ==> self.table_addrs@[j].view() != pa.view(),
            decreases self.table_addrs@.len() - t,
        {
            if self.table_addrs[t].value() == pa.value() {
                proof {
                    let addrs = self.table_addrs@;
                    let p = pa.view() as int;
                    assert(addrs[t as int].view() == p);
                    let c = choose|c: int| 0 <= c < addrs.len() && addrs[c].view() == p && forall|j: int| 0 <= j < c ==> addrs[j].view() != p;
                    assert(c == t) by {
                        if c < t {
                        } else if c > t {
                            assert(addrs[t as int].view() != p);
                        }
                    }
                }
                return Some(t);
            }
            t = t + 1;
        }
        None
    }

    /// The slot that a walk from the root reaches for `va` at `layer`
    /// (0 is the root level), following valid table entries only.
    pub fn find_slot(&self, va: u64, layer: usize) -> (r: Option<usize>)
        requires
            self.wf(),
            layer <= 3,
        ensures
            r.is_some() == self.walk(va, layer as nat).is_some(),
            r.is_some() ==> r.unwrap() == self.walk(va, layer as nat).unwrap(),
            r.is_some() ==> r.unwrap() < self.spec_entries().len(),
    {
        let mut t: usize = 0;
        let mut level: usize = 0;
        while level < layer
            invariant
                self.wf(),
                layer <= 3,
                level <= layer,
                t < self.spec_table_addrs().len(),
                self.walk(va, layer as nat) == walk_from(self.spec_entries(), self.spec_table_addrs(), t as int, level as nat, va, layer as nat),
            decreases layer - level,
        {
            let idx = table_index(va, level);
            // the store length is a usize, which bounds the slot arithmetic below
            let _store_len = self.table_entries.len();
            proof {
                lemma_slot(t as int, idx as int, self.spec_table_addrs().len() as int);
            }
            let e = self.table_entries[t * 512 + idx];
            match e.get_table() {
                Some(pa) => match self.table_index_of(pa) {
                    Some(t2) => {
                        proof {
                            lemma_walk_step(self.spec_entries(), self.spec_table_addrs(), t as int, level as nat, va, layer as nat, t2 as int);
                        }
                        t = t2;
                    },
                    None => {
                        return None;
                    },
                },
                None => {
                    return None;
                },
            }
            level = level + 1;
        }
        let idx = table_index(va, layer);
        // the store length is a usize, which bounds the slot arithmetic below
        let _store_len = self.table_entries.len();
        proof {
            lemma_slot(t as int, idx as int, self.spec_table_addrs().len() as int);
        }
        Some(t * 512 + idx)
    }

    /// The entry that a walk from the root reaches for `va` at `layer`
    /// (0 is the root level), following valid table entries only.
    pub fn lookup(&self, va: u64, layer: usize) -> (r: Option<PageTableEntry>)
        requires
            self.wf(),
            layer <= 3,
        ensures
            r.is_some() == self.walk(va, layer as nat).is_some(),
            r.is_some() ==> r.unwrap() == self.spec_entries()[self.walk(va, layer as nat).unwrap()],
    {
        match self.find_slot(va, layer) {
            Some(k) => Some(self.table_entries[k]),
            None => None,
        }
    }

    /// Appends an empty table at `pa`, of level `level`, to the store.
    fn push_table(&mut self, pa: PhysAddr, Ghost(level): Ghost<nat>, Ghost(parent): Ghost<int>)
        requires
            old(self).wf(),
            level <= 3,
            forall|j: int| 0 <= j < old(self).spec_table_addrs().len() ==> old(self).spec_table_addrs()[j].view() != pa.view(),
        ensures
            final(self).wf(),
            final(self).spec_regions() == old(self).spec_regions(),
            final(self).spec_root() == old(self).spec_root(),
            final(self).spec_table_addrs() == old(self).spec_table_addrs().push(pa),
            final(self).spec_levels() == old(self).spec_levels().push(level),
            final(self).spec_parents() == old(self).spec_parents().push(parent),
            final(self).spec_entries() == old(self).spec_entries() + Seq::new(512, |_i: int| PageTableEntry { entry: 0 }),
    {
        let mut k: usize = 0;
        let ghost base = self.table_entries@;
        while k < 512
            invariant
                k <= 512,
                self.regions@ == old(self).regions@,
                self.table_addrs@ == old(self).table_addrs@,
                self.table_levels == old(self).table_levels,
                self.table_parents == old(self).table_parents,
                self.page_table == old(self).page_table,
                self.table_entries@ == base + Seq::new(k as nat, |_i: int| PageTableEntry { entry: 0 }),
                base == old(self).table_entries@,
            decreases 512 - k,
        {
            self.table_entries.push(PageTableEntry::new());
            k = k + 1;
            assert(self.table_entries@ =~= base + Seq::new(k as nat, |_i: int| PageTableEntry { entry: 0 }));
        }
        self.table_addrs.push(pa);
        let ghost nl = self.table_levels@.push(level);
        self.table_levels = Ghost(nl);
        let ghost np = self.table_parents@.push(parent);
        self.table_parents = Ghost(np);
        proof {
            let (e0, a0, l0) = (old(self).spec_entries(), old(self).spec_table_addrs(), old(self).spec_levels());
            let (e1, a1, l1) = (self.spec_entries(), self.spec_table_addrs(), self.spec_levels());
            assert(self.table_addrs@[0] == old(self).table_addrs@[0]);
            assert(self.table_entries@.len() == old(self).table_entries@.len() + 512);
            assert(self.table_addrs@.len() == old(self).table_addrs@.len() + 1);
            assert(self.spec_regions() == old(self).spec_regions());
            assert forall|t: int| 0 <= t < l1.len() implies #[trigger] l1[t] <= 3 by {
                if t < l0.len() {
                    assert(l1[t] == l0[t]);
                }
            }
            assert forall|i: int, j: int| 0 <= i < a1.len() && 0 <= j < a1.len() && i != j
                implies (#[trigger] a1[i]).view() != (#[trigger] a1[j]).view() by {
                if i < a0.len() && j < a0.len() {
                    assert(a1[i] == a0[i] && a1[j] == a0[j]);
                } else if i < a0.len() {
                    assert(a1[i] == a0[i]);
                } else {
                    assert(a1[j] == a0[j]);
                }
            }
            assert forall|t: int, x: int| 0 <= t < a1.len() && 0 <= x < 512 && l1[t] < 3
                && (#[trigger] slot_entry(e1, t, x)).spec_valid() && slot_entry(e1, t, x).spec_table_bit() implies {
                let to = table_at(a1, (slot_entry(e1, t, x).entry & ADDR_MASK) as int);
                &&& to is Some
                &&& l1[to.unwrap()] == l1[t] + 1
            } by {
                lemma_div_slot(t, x);
                lemma_slot(t, x, a1.len() as int);
                if t < a0.len() {
                    lemma_slot(t, x, a0.len() as int);
                    assert(slot_entry(e1, t, x) == slot_entry(e0, t, x));
                    assert(l1[t] == l0[t]);
                    let p = (slot_entry(e0, t, x).entry & ADDR_MASK) as int;
                    let t2 = table_at(a0, p).unwrap();
                    let c = choose|c: int| 0 <= c < a0.len() && a0[c].view() == p && forall|j: int| 0 <= j < c ==> a0[j].view() != p;
                    assert(t2 == c);
                    assert(a1[t2] == a0[t2]);
                    lemma_table_at_index(a1, t2);
                    assert(l1[t2] == l0[t2]);
                } else {
                    assert(slot_entry(e1, t, x).entry == 0);
                    lemma_zero_entry_invalid();
                }
            }
            let (p0, p1) = (old(self).spec_parents(), self.spec_parents());
            assert(a1.subrange(0, a0.len() as int) =~= a0);
            assert(l1.subrange(0, l0.len() as int) =~= l0);
            assert(p1.subrange(0, a0.len() as int) =~= p0.subrange(0, a0.len() as int));
            assert forall|t: int, x: int| 0 <= t < a1.len() && 0 <= x < 512 && l1[t] < 3
                && (#[trigger] slot_entry(e1, t, x)).spec_valid() && slot_entry(e1, t, x).spec_table_bit()
                implies t < a0.len() && slot_entry(e1, t, x) == slot_entry(e0, t, x) by {
                lemma_slot(t, x, a1.len() as int);
                if t < a0.len() {
                    lemma_slot(t, x, a0.len() as int);
                } else {
                    assert(slot_entry(e1, t, x).entry == 0);
                    lemma_zero_entry_invalid();
                }
            }
            lemma_parent_keep(e0, a0, l0, p0, e1, a1, l1, p1);
        }
    }

    /// A 4 KiB page from `alloc` that is not yet a table; pages handed out
    /// that already are tables are passed over. Fails only when `alloc`
    /// has no page left.
    fn fresh_table_page(&self, alloc: &mut StackFrameAllocator) -> (r: Result<PhysAddr, FrameAllocError>)
        requires
            self.wf(),
            old(alloc).wf(),
        ensures
            final(alloc).wf(),
            r.is_err() ==> !final(alloc).can_give_page() && took_tables(*old(alloc), *final(alloc), self.spec_table_addrs()),
            r.is_ok() ==> {
                let pa = r.unwrap();
                &&& !is_table(self.spec_table_addrs(), pa.view() as int)
                &&& pa.view() % 4096 == 0
                &&& took_tables(*old(alloc), *final(alloc), self.spec_table_addrs().push(pa))
            },
    {
        proof {
            lemma_took_refl(*alloc, self.spec_table_addrs());
        }
        loop
            invariant
                self.wf(),
                alloc.wf(),
                took_tables(*old(alloc), *alloc, self.spec_table_addrs()),
            decreases alloc.free(0).len() + (if alloc.limit() >= alloc.cursor() { alloc.limit() - alloc.cursor() } else { 0int }),
        {
            let ghost prev = *alloc;
            let got = alloc.unsafe_alloc_page();
            proof {
                assert(alloc.free(1) == prev.free(1) && alloc.free(2) == prev.free(2));
            }
            match got {
                Err(e) => {
                    proof {
                        assert(alloc.free(0) =~= prev.free(0).subrange(0, alloc.free(0).len() as int));
                        lemma_took_refl(*alloc, self.spec_table_addrs());
                    }
                    return Err(e);
                },
                Ok(pa) => {
                    let known = self.table_index_of(pa);
                    let ghost a = self.spec_table_addrs();
                    let ghost ap = a.push(pa);
                    proof {
                        // prev to alloc took exactly `pa`
                        let cur_is = if prev.free(0).len() > 0 { false } else { true };
                        assert(alloc.free(0) =~= prev.free(0).subrange(0, alloc.free(0).len() as int));
                        assert(ap[a.len() as int] == pa);
                        assert(is_table(ap, pa.view() as int));
                        assert(ap.subrange(0, a.len() as int) =~= a);
                        if known.is_some() {
                            let p = pa.view() as int;
                            let c = choose|c: int| 0 <= c < a.len() && a[c].view() == p && forall|j: int| 0 <= j < c ==> a[j].view() != p;
                            assert(a[c].view() == p);
                            assert(is_table(a, p));
                            assert(took_tables(prev, *alloc, a));
                            assert(a.subrange(0, a.len() as int) =~= a);
                            lemma_took_trans(*old(alloc), prev, *alloc, a, a);
                        } else {
                            if is_table(a, pa.view() as int) {
                                let t = choose|t: int| 0 <= t < a.len() && #[trigger] a[t].view() == pa.view() as int;
                                let _first = choose_first(a, pa.view() as int, t);
                            }
                            assert(took_tables(prev, *alloc, ap));
                            lemma_took_trans(*old(alloc), prev, *alloc, a, ap);
                        }
                    }
                    if known.is_none() {
                        return Ok(pa);
                    }
                },
            }
        }
    }

    /// The slot of the entry for `va` at `layer`, creating the missing
    /// tables on the way down with frames from `alloc`. A slot on the way
    /// that is not a valid entry of a known table is replaced by an entry
    /// for a fresh, empty table. A fresh frame that already holds a table
    /// is refused.
    fn find_entry(&mut self, va: u64, layer: usize, alloc: &mut StackFrameAllocator) -> (r: Result<usize, MapError>)
        requires
            old(self).wf(),
            old(alloc).wf(),
            layer <= 3,
        ensures
            final(self).wf(),
            final(alloc).wf(),
            final(alloc).limit() == old(alloc).limit(),
            final(alloc).cursor() >= old(alloc).cursor(),
            final(self).spec_regions() == old(self).spec_regions(),
            final(self).spec_root() == old(self).spec_root(),
            final(self).spec_table_addrs().len() >= old(self).spec_table_addrs().len(),
            r.is_err() ==> table_failure(r.unwrap_err(), &*final(self), &*final(alloc)),
            took_tables(*old(alloc), *final(alloc), final(self).spec_table_addrs()),
            old(self).walk(va, layer as nat) is Some ==> r == Ok::<usize, MapError>(old(self).walk(va, layer as nat).unwrap() as usize)
                && *final(self) == *old(self) && *final(alloc) == *old(alloc),
            final(self).spec_entries().len() >= old(self).spec_entries().len(),
            final(self).spec_table_addrs().subrange(0, old(self).spec_table_addrs().len() as int) == old(self).spec_table_addrs(),
            forall|s: int| 0 <= s < old(self).spec_entries().len()
                && #[trigger] known_table(old(self).spec_entries(), old(self).spec_table_addrs(), s)
                ==> final(self).spec_entries()[s] == old(self).spec_entries()[s],
            forall|s: int| 0 <= s < old(self).spec_entries().len()
                && #[trigger] final(self).spec_entries()[s] != old(self).spec_entries()[s]
                ==> exists|l: nat| l < layer && #[trigger] final(self).walk(va, l) == Some(s),
            r.is_ok() ==> {
                let k = r.unwrap() as int;
                &&& final(self).walk(va, layer as nat) == Some(k)
                &&& 0 <= k / 512 < final(self).spec_table_addrs().len()
                &&& final(self).spec_levels()[k / 512] == layer
                &&& k == (k / 512) * 512 + spec_table_index(va, layer as nat)
            },
    {
        let mut t: usize = 0;
        let mut level: usize = 0;
        proof {
            lemma_took_refl(*alloc, self.spec_table_addrs());
            lemma_index_bound(va, 0);
            lemma_div_slot(0, spec_table_index(va, 0) as int);
        }
        while level < layer
            invariant
                self.wf(),
                alloc.wf(),
                alloc.limit() == old(alloc).limit(),
                alloc.cursor() >= old(alloc).cursor(),
                self.spec_regions() == old(self).spec_regions(),
                self.spec_root() == old(self).spec_root(),
                self.spec_table_addrs().len() >= old(self).spec_table_addrs().len(),
                layer <= 3,
                level <= layer,
                t < self.spec_table_addrs().len(),
                self.spec_levels()[t as int] == level,
                self.walk(va, level as nat) == Some(t * 512 + spec_table_index(va, level as nat)),
                old(self).walk(va, layer as nat) is Some ==> *self == *old(self) && *alloc == *old(alloc)
                    && walk_from(self.spec_entries(), self.spec_table_addrs(), t as int, level as nat, va, layer as nat)
                        == old(self).walk(va, layer as nat),
                self.spec_entries().len() >= old(self).spec_entries().len(),
                took_tables(*old(alloc), *alloc, self.spec_table_addrs()),
                self.spec_table_addrs().subrange(0, old(self).spec_table_addrs().len() as int) == old(self).spec_table_addrs(),
                forall|s: int| 0 <= s < old(self).spec_entries().len()
                    && #[trigger] known_table(old(self).spec_entries(), old(self).spec_table_addrs(), s)
                    ==> self.spec_entries()[s] == old(self).spec_entries()[s],
                forall|s: int| 0 <= s < old(self).spec_entries().len()
                    && #[trigger] self.spec_entries()[s] != old(self).spec_entries()[s]
                    ==> exists|l: nat| l < level && #[trigger] self.walk(va, l) == Some(s),
            decreases layer - level,
        {
            let idx = table_index(va, level);
            // the store length is a usize, which bounds the slot arithmetic below
            let _store_len = self.table_entries.len();
            proof {
                lemma_slot(t as int, idx as int, self.spec_table_addrs().len() as int);
                lemma_div_slot(t as int, idx as int);
                lemma_index_bound(va, (level + 1) as nat);
                lemma_walk_compose(self.spec_entries(), self.spec_table_addrs(), 0, 0, va, level as nat, (level + 1) as nat);
            }
            let slot = t * 512 + idx;
            let e = self.table_entries[slot];
            let known = match e.get_table() {
                Some(pa) => self.table_index_of(pa),
                None => None,
            };
            match known {
                Some(t2) => {
                    proof {
                        assert(slot_entry(self.spec_entries(), t as int, idx as int) == e);
                        lemma_div_slot(t2 as int, spec_table_index(va, (level + 1) as nat) as int);
                        lemma_walk_step(self.spec_entries(), self.spec_table_addrs(), t as int, level as nat, va, layer as nat, t2 as int);
                        reveal_with_fuel(walk_from, 2);
                        assert(walk_from(self.spec_entries(), self.spec_table_addrs(), t as int, level as nat, va, (level + 1) as nat)
                            == Some(t2 * 512 + spec_table_index(va, (level + 1) as nat)));
                        assert(self.walk(va, (level + 1) as nat) == Some(t2 * 512 + spec_table_index(va, (level + 1) as nat)));
                    }
                    t = t2;
                },
                None => {
                    proof {
                        assert(slot_entry(self.spec_entries(), t as int, idx as int) == e);
                        if old(self).walk(va, layer as nat) is Some {
                            assert(walk_from(self.spec_entries(), self.spec_table_addrs(), t as int, level as nat, va, layer as nat) is Some);
                            assert(false);
                        }
                    }
                    let ghost a_before = *alloc;
                    let pa = match self.fresh_table_page(alloc) {
                        Ok(pa) => pa,
                        Err(err) => {
                            proof {
                                assert(self.spec_table_addrs().subrange(0, self.spec_table_addrs().len() as int) =~= self.spec_table_addrs());
                                lemma_took_trans(*old(alloc), a_before, *alloc, self.spec_table_addrs(), self.spec_table_addrs());
                            }
                            return Err(MapError::NoTableFrame(err));
                        },
                    };
                    proof {
                        lemma_table_at_none_of(self.spec_table_addrs(), pa.view() as int);
                    }
                    let ghost (e0, a0, l0) = (self.spec_entries(), self.spec_table_addrs(), self.spec_levels());
                    let ghost s_pre = *self;
                    proof {
                        lemma_table_at_none(a0, pa.view() as int);
                    }
                    self.push_table(pa, Ghost((level + 1) as nat), Ghost(slot as int));
                    let mut ne = PageTableEntry::new();
                    ne.set_table_page(pa, None);
                    let n = self.table_addrs.len() - 1;
                    let _pv = pa.value();
                    proof {
                        lemma_slot(t as int, idx as int, self.spec_table_addrs().len() as int);
                        let p = pa.view();
                        assert(p % 4096 == 0);
                        assert(p & 0xfffu64 == p % 4096) by (bit_vector);
                        assert(p & 0xfffu64 == 0 && p <= 0x0000_ffff_ffff_ffffu64
                            ==> (p | 0u64 | 2u64 | 1u64) & 0x0000_ffff_ffff_f000u64 == p) by (bit_vector);
                        assert((p | 0u64 | 2u64 | 1u64) & 1u64 == 1u64) by (bit_vector);
                        assert((p | 0u64 | 2u64 | 1u64) & 2u64 == 2u64) by (bit_vector);
                    }
                    self.table_entries.set(slot, ne);
                    proof {
                        let (e1, a1, l1) = (self.spec_entries(), self.spec_table_addrs(), self.spec_levels());
                        let e_mid = e0 + Seq::new(512, |_i: int| PageTableEntry { entry: 0 });
                        assert(e1 == e_mid.update(slot as int, ne));
                        assert(a1 == a0.push(pa));
                        assert(l1 == l0.push((level + 1) as nat));
                        lemma_table_at_index(a1, n as int);
                        assert(a1[n as int] == pa);
                        // levels still hold
                        assert forall|t1: int, x: int| 0 <= t1 < a1.len() && 0 <= x < 512 && l1[t1] < 3
                            && (#[trigger] slot_entry(e1, t1, x)).spec_valid() && slot_entry(e1, t1, x).spec_table_bit() implies {
                            let to = table_at(a1, (slot_entry(e1, t1, x).entry & ADDR_MASK) as int);
                            &&& to is Some
                            &&& l1[to.unwrap()] == l1[t1] + 1
                        } by {
                            lemma_div_slot(t1, x);
                            lemma_slot(t1, x, a1.len() as int);
                            if t1 == t && x == idx {
                                assert(slot_entry(e1, t1, x) == ne);
                            } else {
                                assert(slot_entry(e1, t1, x) == slot_entry(e_mid, t1, x));
                                if t1 < a0.len() {
                                    lemma_slot(t1, x, a0.len() as int);
                                    assert(slot_entry(e_mid, t1, x) == slot_entry(e0, t1, x));
                                    assert(l1[t1] == l0[t1]);
                                    let q = (slot_entry(e0, t1, x).entry & ADDR_MASK) as int;
                                    let t2 = table_at(a0, q).unwrap();
                                    let c = choose|c: int| 0 <= c < a0.len() && a0[c].view() == q && forall|j: int| 0 <= j < c ==> a0[j].view() != q;
                                    assert(t2 == c);
                                    assert(a1[t2] == a0[t2]);
                                    lemma_table_at_index(a1, t2);
                                    assert(l1[t2] == l0[t2]);
                                } else {
                                    assert(slot_entry(e_mid, t1, x).entry == 0);
                                    lemma_zero_entry_invalid();
                                }
                            }
                        }
                        assert(tree_levels(e1, a1, l1));
                        let p1 = self.spec_parents();
                        assert(p1[n as int] == slot);
                        assert forall|t1: int, x: int| 0 <= t1 < a1.len() && 0 <= x < 512 && l1[t1] < 3
                            && (#[trigger] slot_entry(e1, t1, x)).spec_valid() && slot_entry(e1, t1, x).spec_table_bit()
                            implies p1[table_at(a1, (slot_entry(e1, t1, x).entry & ADDR_MASK) as int).unwrap()] == t1 * 512 + x by {
                            lemma_div_slot(t1, x);
                            lemma_slot(t1, x, a1.len() as int);
                            if t1 == t && x == idx {
                                assert(slot_entry(e1, t1, x) == ne);
                            } else {
                                assert(slot_entry(e1, t1, x) == slot_entry(e_mid, t1, x));
                                assert(slot_entry(e_mid, t1, x).spec_valid());
                            }
                        }
                        // the walk down to this level is as it was
                        assert(a1.subrange(0, a0.len() as int) =~= a0);
                        assert forall|t1: int, x: int| 0 <= t1 < a0.len() && 0 <= x < 512 && l0[t1] < level
                            implies #[trigger] slot_entry(e1, t1, x) == slot_entry(e0, t1, x) by {
                            lemma_slot(t1, x, a0.len() as int);
                            lemma_div_slot(t1, x);
                            if t1 == t {
                            }
                        }
                        lemma_walk_prefix(e0, a0, l0, e1, a1, 0, 0, va, level as nat);
                        lemma_walk_compose(e1, a1, 0, 0, va, level as nat, (level + 1) as nat);
                        assert(slot_entry(e1, t as int, idx as int) == ne);
                        lemma_div_slot(n as int, spec_table_index(va, (level + 1) as nat) as int);
                        assert(walk_from(e1, a1, 0, 0, va, level as nat) == Some(t * 512 + spec_table_index(va, level as nat)));
                        reveal_with_fuel(walk_from, 2);
                        assert(walk_from(e1, a1, t as int, level as nat, va, (level + 1) as nat)
                            == Some(n * 512 + spec_table_index(va, (level + 1) as nat)));
                        assert(self.walk(va, (level + 1) as nat) == Some(n * 512 + spec_table_index(va, (level + 1) as nat)));
                        // what changed, and where
                        assert(a1.subrange(0, a0.len() as int) =~= a0);
                        lemma_took_trans(*old(alloc), a_before, *alloc, a0, a1);
                        let eo = old(self).spec_entries();
                        let ao = old(self).spec_table_addrs();
                        assert(a1.subrange(0, ao.len() as int) =~= a0.subrange(0, ao.len() as int));
                        assert forall|s2: int| 0 <= s2 < eo.len() && #[trigger] known_table(eo, ao, s2) implies e1[s2] == eo[s2] by {
                            if s2 == slot {
                                let q = (eo[s2].entry & ADDR_MASK) as int;
                                let t2 = table_at(ao, q).unwrap();
                                let c = choose|c: int| 0 <= c < ao.len() && ao[c].view() == q && forall|j: int| 0 <= j < c ==> ao[j].view() != q;
                                assert(t2 == c);
                                assert(a0.subrange(0, ao.len() as int)[t2] == a0[t2]);
                                lemma_table_at_index(a0, t2);
                                assert(e0[s2] == eo[s2]);
                                assert(known_table(e0, a0, s2));
                                assert(false);
                            } else {
                                assert(e1[s2] == e_mid[s2]);
                            }
                        }
                        assert forall|s2: int| 0 <= s2 < eo.len() && #[trigger] e1[s2] != eo[s2]
                            implies exists|l: nat| l < level + 1 && #[trigger] self.walk(va, l) == Some(s2) by {
                            if s2 == slot {
                                assert(self.walk(va, level as nat) == Some(s2));
                            } else {
                                assert(e1[s2] == e_mid[s2]);
                                assert(e0[s2] != eo[s2]);
                                let l = choose|l: nat| l < level && #[trigger] s_pre.walk(va, l) == Some(s2);
                                lemma_walk_prefix(e0, a0, l0, e1, a1, 0, 0, va, l);
                                assert(self.walk(va, l) == Some(s2));
                            }
                        }
                    }
                    t = n;
                },
            }
            level = level + 1;
        }
        let idx = table_index(va, layer);
        // the store length is a usize, which bounds the slot arithmetic below
        let _store_len = self.table_entries.len();
        proof {
            lemma_slot(t as int, idx as int, self.spec_table_addrs().len() as int);
            lemma_div_slot(t as int, idx as int);
        }
        Ok(t * 512 + idx)
    }

    /// Installs the leaf entry for `frame` at `va`, at the level of its
    /// size class: a page or block entry to its memory for a data frame,
    /// an invalid entry holding only `flag` for a guard or lazy frame.
    pub fn map_frame(&mut self, va: u64, frame: &Frame, flag: Option<PageTableFlagsField>, alloc: &mut StackFrameAllocator) -> (r: Result<(), MapError>)
        requires
            old(self).wf(),
            old(alloc).wf(),
        ensures
            took_tables(*old(alloc), *final(alloc), final(self).spec_table_addrs()),
            final(self).spec_table_addrs().len() >= old(self).spec_table_addrs().len()
                && final(self).spec_table_addrs().subrange(0, old(self).spec_table_addrs().len() as int) == old(self).spec_table_addrs(),
            final(self).wf(),
            final(alloc).wf(),
            final(alloc).limit() == old(alloc).limit(),
            final(alloc).cursor() >= old(alloc).cursor(),
            final(self).spec_regions() == old(self).spec_regions(),
            final(self).spec_root() == old(self).spec_root(),
            r.is_err() ==> table_failure(r.unwrap_err(), &*final(self), &*final(alloc)),
            old(self).walk(va, frame_layer(frame.spec_frame_size())) is Some ==> r.is_ok(),
            r.is_ok() ==> {
                let layer = frame_layer(frame.spec_frame_size());
                &&& final(self).walk(va, layer) is Some
                &&& final(self).spec_entries()[final(self).walk(va, layer).unwrap()].entry == leaf_bits(*frame, layer, flag)
            },
            r.is_ok() ==> forall|vq: u64, lq: nat| #![trigger old(self).walk(vq, lq)]
                old(self).walk(vq, lq) is Some && 1 <= lq <= 3
                && vq as int % block_bytes(lq) == 0
                && va as int % block_bytes(frame_layer(frame.spec_frame_size())) == 0
                && (vq as int + block_bytes(lq) <= va || va as int + block_bytes(frame_layer(frame.spec_frame_size())) <= vq)
                && va <= ADDR_MASK48
                && vq <= ADDR_MASK48
                ==> final(self).walk(vq, lq) == old(self).walk(vq, lq)
                    && final(self).spec_entries()[old(self).walk(vq, lq).unwrap()]
                        == old(self).spec_entries()[old(self).walk(vq, lq).unwrap()],
    {
        let layer: usize = match frame.frame_size() {
            FrameSize::Size4Kb => 3,
            FrameSize::Size2Mb => 2,
            FrameSize::Size1Gb => 1,
        };
        let k = match self.find_entry(va, layer, alloc) {
            Ok(k) => k,
            Err(e) => {
                return Err(e);
            },
        };
        let ghost mid = *self;
        // the store length is a usize, which bounds the slot arithmetic below
        let _store_len = self.table_entries.len();
        let mut e = self.table_entries[k];
        match frame {
            Frame::Data(data) => {
                if layer == 3 {
                    e.set_table_page(data.frame_addr(), flag);
                } else {
                    e.set_huge_page(data.frame_addr(), flag);
                    proof {
                        let (p, f) = (data.spec_start().view(), flag_bits(flag));
                        assert((((p | f) & !2u64) | 1u64) & 2u64 != 2u64) by (bit_vector);
                    }
                }
            },
            Frame::Guard(_) => {
                e.set_placeholder(flag);
            },
            Frame::Lazy(_) => {
                e.set_placeholder(flag);
            },
        }
        let ghost (e0, a0, l0) = (self.spec_entries(), self.spec_table_addrs(), self.spec_levels());
        self.table_entries.set(k, e);
        proof {
            let e1 = self.spec_entries();
            let tk = k as int / 512;
            let xk = spec_table_index(va, layer as nat) as int;
            lemma_index_bound(va, layer as nat);
            assert(e1 == e0.update(k as int, e));
            lemma_div_slot(tk, xk);
            let p0 = self.spec_parents();
            lemma_write_keeps(e0, a0, l0, p0, k as int, e);
            assert forall|t1: int, x: int| 0 <= t1 < a0.len() && 0 <= x < 512 && l0[t1] < layer
                implies #[trigger] slot_entry(e1, t1, x) == slot_entry(e0, t1, x) by {
                lemma_slot(t1, x, a0.len() as int);
                lemma_div_slot(t1, x);
                if t1 * 512 + x == k {
                    assert(t1 == tk);
                }
            }
            assert(a0.subrange(0, a0.len() as int) =~= a0);
            lemma_walk_prefix(e0, a0, l0, e1, a0, 0, 0, va, layer as nat);
            let (eo, ao, lo) = (old(self).spec_entries(), old(self).spec_table_addrs(), old(self).spec_levels());
            assert forall|vq: u64, lq: nat| #![trigger old(self).walk(vq, lq)]
                old(self).walk(vq, lq) is Some && 1 <= lq <= 3
                && vq as int % block_bytes(lq) == 0
                && va as int % block_bytes(frame_layer(frame.spec_frame_size())) == 0
                && (vq as int + block_bytes(lq) <= va || va as int + block_bytes(frame_layer(frame.spec_frame_size())) <= vq)
                && va <= ADDR_MASK48
                && vq <= ADDR_MASK48
                implies self.walk(vq, lq) == old(self).walk(vq, lq)
                    && self.spec_entries()[old(self).walk(vq, lq).unwrap()] == eo[old(self).walk(vq, lq).unwrap()] by {
                let kq = old(self).walk(vq, lq).unwrap();
                lemma_walk_levels(eo, ao, lo, 0, 0, vq, lq);
                lemma_slot(kq / 512, spec_table_index(vq, lq) as int, ao.len() as int);
                assert forall|s2: int| 0 <= s2 < eo.len() && #[trigger] e0[s2] != eo[s2]
                    implies exists|l: nat| l < layer && #[trigger] walk_from(e0, a0, 0, 0, va, l) == Some(s2) by {
                    let l = choose|l: nat| l < layer && #[trigger] mid.walk(va, l) == Some(s2);
                    assert(walk_from(e0, a0, 0, 0, va, l) == Some(s2));
                }
                lemma_install_keeps(eo, ao, e0, a0, l0, p0, k as int, e, vq, lq, kq, va, layer as nat);
            }
        }
        Ok(())
    }

    /// Maps `n` pages from virtual page `vpn` onto physical page `ppn`:
    /// the mapping solver splits the range into chunks, and each block of
    /// each chunk gets its leaf entry at the chunk's level.
    pub fn allocate_map(
        &mut self,
        vpn: VirtPageNum,
        ppn: PhysPageNum,
        n: u64,
        flags: Option<PageTableFlagsField>,
        alloc: &mut StackFrameAllocator,
    ) -> (r: Result<(), MapError>)
        requires
            old(self).wf(),
            old(alloc).wf(),
            vpn.0 + n <= 0x10_0000_0000,
            ppn.0 + n <= 0x10_0000_0000,
        ensures
            took_tables(*old(alloc), *final(alloc), final(self).spec_table_addrs()),
            final(self).spec_table_addrs().len() >= old(self).spec_table_addrs().len()
                && final(self).spec_table_addrs().subrange(0, old(self).spec_table_addrs().len() as int) == old(self).spec_table_addrs(),
            final(self).wf(),
            final(alloc).wf(),
            final(alloc).limit() == old(alloc).limit(),
            final(alloc).cursor() >= old(alloc).cursor(),
            final(self).spec_regions() == old(self).spec_regions(),
            final(self).spec_root() == old(self).spec_root(),
            r.is_err() ==> table_failure(r.unwrap_err(), &*final(self), &*final(alloc)),
            r.is_ok() ==> {
                let cs = solution(vpn.0 as int, ppn.0 as int, n as int);
                chunks_installed(&*final(self), cs, vpn.0 as int, ppn.0 as int, flags, cs.len() as int)
            },
    {
        proof {
            lemma_solver_coverage(vpn.0, ppn.0, n);
        }
        let solver = MaperSolver::solve(vpn, ppn, n, ARM64);
        let chunks = solver.chunks();
        proof {
            assert forall|i: int| 0 <= i < chunks@.len() implies {
                let c = #[trigger] chunks@[i];
                &&& c.level.0 <= 2
                &&& vpn.0 <= c.start.0 < c.end.0 <= vpn.0 + n
                &&& c.start.1 == ppn.0 + c.start.0 - vpn.0
            } by {
                let c = chunks@[i];
                assert(crate::solver::in_chunk(c, c.start.0 as int));
                assert(crate::solver::covered(chunks@, c.start.0 as int));
                assert(crate::solver::in_chunk(c, c.end.0 - 1));
                assert(crate::solver::covered(chunks@, c.end.0 - 1));
            }
        }
        let mut k: usize = 0;
        proof {
            lemma_took_refl(*alloc, self.spec_table_addrs());
            assert(self.spec_table_addrs().subrange(0, self.spec_table_addrs().len() as int) =~= self.spec_table_addrs());
        }
        while k < chunks.len()
            invariant
                self.wf(),
                alloc.wf(),
                alloc.limit() == old(alloc).limit(),
                alloc.cursor() >= old(alloc).cursor(),
                self.spec_regions() == old(self).spec_regions(),
                self.spec_root() == old(self).spec_root(),
                took_tables(*old(alloc), *alloc, self.spec_table_addrs()),
                self.spec_table_addrs().len() >= old(self).spec_table_addrs().len(),
                self.spec_table_addrs().subrange(0, old(self).spec_table_addrs().len() as int) == old(self).spec_table_addrs(),
                k <= chunks@.len(),
                vpn.0 + n <= 0x10_0000_0000,
                ppn.0 + n <= 0x10_0000_0000,
                forall|i: int| 0 <= i < chunks@.len() ==> {
                    let c = #[trigger] chunks@[i];
                    &&& c.level.0 <= 2
                    &&& vpn.0 <= c.start.0 < c.end.0 <= vpn.0 + n
                    &&& c.start.1 == ppn.0 + c.start.0 - vpn.0
                    &&& c.start.0 as int % (level_align(c.level.0 as nat) as int) == 0
                    &&& c.end.0 as int % (level_align(c.level.0 as nat) as int) == 0
                },
                forall|k1: int, k2: int| 0 <= k1 < k2 < chunks@.len() ==> #[trigger] chunks@[k1].end.0 <= #[trigger] chunks@[k2].start.0,
                chunks@ == solution(vpn.0 as int, ppn.0 as int, n as int),
                chunks_installed(&*self, chunks@, vpn.0 as int, ppn.0 as int, flags, k as int),
            decreases chunks@.len() - k,
        {
            let c = chunks[k];
            let size = match c.level.0 {
                0 => FrameSize::Size4Kb,
                1 => FrameSize::Size2Mb,
                _ => FrameSize::Size1Gb,
            };
            let align = ARM64::get_align_for_level(c.level).value();
            proof {
                reveal_with_fuel(level_align, 3);
            }
            let mut v = c.start.0;
            let mut p = c.start.1;
            while v < c.end.0
                invariant
                    self.wf(),
                    alloc.wf(),
                    alloc.limit() == old(alloc).limit(),
                    alloc.cursor() >= old(alloc).cursor(),
                    self.spec_regions() == old(self).spec_regions(),
                    self.spec_root() == old(self).spec_root(),
                    took_tables(*old(alloc), *alloc, self.spec_table_addrs()),
                    self.spec_table_addrs().len() >= old(self).spec_table_addrs().len(),
                    self.spec_table_addrs().subrange(0, old(self).spec_table_addrs().len() as int) == old(self).spec_table_addrs(),
                    1 <= align <= 0x4_0000,
                    c.end.0 <= 0x10_0000_0000,
                    v <= c.end.0 + 0x4_0000,
                    p == v + ppn.0 - vpn.0,
                    ppn.0 + n <= 0x10_0000_0000,
                    vpn.0 <= c.start.0 <= v,
                    c.end.0 <= vpn.0 + n,
                    k < chunks@.len(),
                    c == chunks@[k as int],
                    align == level_align(c.level.0 as nat),
                    c.level.0 <= 2,
                    (v - c.start.0) % (align as int) == 0,
                    c.start.0 as int % (align as int) == 0,
                    c.end.0 as int % (align as int) == 0,
                    size == level_size_of(c.level.0 as nat),
                    forall|i: int| 0 <= i < chunks@.len() ==> {
                        let c2 = #[trigger] chunks@[i];
                        &&& c2.level.0 <= 2
                        &&& vpn.0 <= c2.start.0 < c2.end.0 <= vpn.0 + n
                        &&& c2.start.0 as int % (level_align(c2.level.0 as nat) as int) == 0
                        &&& c2.end.0 as int % (level_align(c2.level.0 as nat) as int) == 0
                    },
                    forall|k1: int, k2: int| 0 <= k1 < k2 < chunks@.len() ==> #[trigger] chunks@[k1].end.0 <= #[trigger] chunks@[k2].start.0,
                    chunks_installed(&*self, chunks@, vpn.0 as int, ppn.0 as int, flags, k as int),
                    forall|w: int| c.start.0 <= w < v && (w - c.start.0) % (align as int) == 0
                        ==> #[trigger] block_installed(&*self, c, w, vpn.0 as int, ppn.0 as int, flags),
                decreases c.end.0 + 0x4_0000 - v,
            {
                let pa = PhysAddr::new(p << 12u64);
                let d = DataFrame::new(pa, size);
                let ghost s_prev = *self;
                let ghost a_prev = *alloc;
                proof {
                    lemma_page_shift(p);
                    lemma_page_shift(v);
                    crate::addr::lemma_in_width_masked(p << 12u64);
                }
                match self.map_frame(v << 12u64, &Frame::Data(d), flags, alloc) {
                    Ok(()) => {
                        proof {
                            lemma_took_trans(*old(alloc), a_prev, *alloc, s_prev.spec_table_addrs(), self.spec_table_addrs());
                            lemma_prefix_trans(old(self).spec_table_addrs(), s_prev.spec_table_addrs(), self.spec_table_addrs());
                            let layer = (3 - c.level.0) as nat;
                            let va_cur = (v * 4096) as u64;
                            reveal_with_fuel(level_align, 3);
                            assert(block_bytes(layer) == 4096 * align);
                            lemma_mod_of_diff(v as int, c.start.0 as int, align as int);
                            lemma_scale_mod(v as int, align as int);
                            assert(frame_layer(size) == layer);
                            // earlier blocks stay
                            assert forall|i: int, w: int| 0 <= i < k && chunks@[i].start.0 <= w < chunks@[i].end.0
                                && (w - chunks@[i].start.0) % (level_align(chunks@[i].level.0 as nat) as int) == 0
                                implies #[trigger] block_installed(&*self, chunks@[i], w, vpn.0 as int, ppn.0 as int, flags) by {
                                let ci = chunks@[i];
                                let ai = level_align(ci.level.0 as nat) as int;
                                let lq = (3 - ci.level.0) as nat;
                                reveal_with_fuel(level_align, 3);
                                assert(block_installed(&s_prev, ci, w, vpn.0 as int, ppn.0 as int, flags));
                                assert(block_bytes(lq) == 4096 * ai);
                                lemma_mod_of_diff(w, ci.start.0 as int, ai);
                                lemma_scale_mod(w, ai);
                                lemma_multiples_apart(w, ci.end.0 as int, ai);
                                assert(ci.end.0 <= c.start.0);
                                let vq = (w * 4096) as u64;
                                assert(s_prev.walk(vq, lq) is Some);
                            }
                            assert forall|w: int| c.start.0 <= w < v + align && (w - c.start.0) % (align as int) == 0
                                implies #[trigger] block_installed(&*self, c, w, vpn.0 as int, ppn.0 as int, flags) by {
                                if w < v {
                                    assert(block_installed(&s_prev, c, w, vpn.0 as int, ppn.0 as int, flags));
                                    lemma_mod_of_diff(w, c.start.0 as int, align as int);
                                    lemma_scale_mod(w, align as int);
                                    lemma_multiples_apart(w - c.start.0, v - c.start.0, align as int);
                                    let vq = (w * 4096) as u64;
                                    assert(s_prev.walk(vq, layer) is Some);
                                } else {
                                    if w > v {
                                        lemma_multiples_apart(v - c.start.0, w - c.start.0, align as int);
                                    }
                                    assert(w == v);
                                }
                            }
                            lemma_mod_step(v - c.start.0, align as int);
                        }
                    },
                    Err(e) => {
                        proof {
                            lemma_took_trans(*old(alloc), a_prev, *alloc, s_prev.spec_table_addrs(), self.spec_table_addrs());
                            lemma_prefix_trans(old(self).spec_table_addrs(), s_prev.spec_table_addrs(), self.spec_table_addrs());
                        }
                        return Err(e);
                    },
                }
                v = v + align;
                p = p + align;
            }
            proof {
                assert forall|i: int, w: int| 0 <= i < k + 1 && chunks@[i].start.0 <= w < chunks@[i].end.0
                    && (w - chunks@[i].start.0) % (level_align(chunks@[i].level.0 as nat) as int) == 0
                    implies #[trigger] block_installed(&*self, chunks@[i], w, vpn.0 as int, ppn.0 as int, flags) by {
                    if i == k {
                        assert(chunks@[i] == c);
                    }
                }
            }
            k = k + 1;
        }
        Ok(())
    }

    /// Backs `len` bytes at `va` with fresh frames from `alloc` (huge
    /// pages where the alignment allows), optionally followed by one 4 KiB
    /// guard frame, and maps them as a region with `flag`. When the
    /// allocator cannot give the frames, nothing is taken and the reason
    /// is returned.
    #[verifier::rlimit(60)]
    pub fn map_new_range(
        &mut self,
        va: u64,
        len: u64,
        guard: bool,
        flag: Option<PageTableFlagsField>,
        alloc: &mut StackFrameAllocator,
    ) -> (r: Result<(), MapError>)
        requires
            old(self).wf(),
            old(alloc).wf(),
            va <= ADDR_MASK48,
            va + len + 0x2000 <= u64::MAX,
        ensures
            final(self).wf(),
            final(alloc).wf(),
            final(alloc).limit() == old(alloc).limit(),
            final(self).spec_root() == old(self).spec_root(),
            ({
                let plan = frame_plan((va / 4096) as u64, (old(alloc).cursor() / 4096) as u64, ((len + 4095) / 4096) as u64);
                let pos = suffix_start(plan, old(alloc).free_lens(), plan.len() as int);
                let failure = bump_error(old(alloc).cursor(), old(alloc).limit(), plan, 0, pos);
                &&& failure is Some ==> r == Err::<(), MapError>(MapError::NoFrame(failure.unwrap()))
                    && final(self).spec_regions() == old(self).spec_regions()
                    && final(alloc).cursor() == old(alloc).cursor()
                    && forall|k: nat| k < 3 ==> #[trigger] final(alloc).free(k) == old(alloc).free(k)
                &&& failure is None && overlaps(old(self).spec_regions(), va as int, len as int)
                    ==> r == Err::<(), MapError>(MapError::Overlap) && final(self).spec_regions() == old(self).spec_regions()
                &&& failure is None && !overlaps(old(self).spec_regions(), va as int, len as int) ==> {
                    let frames = final(self).spec_regions().last().spec_frames();
                    &&& r.is_ok() || table_failure(r.unwrap_err(), &*final(self), &*final(alloc))
                    &&& final(self).spec_regions().len() == old(self).spec_regions().len() + 1
                    &&& final(self).spec_regions().drop_last() == old(self).spec_regions()
                    &&& final(self).spec_regions().last().spec_start() == va
                    &&& final(self).spec_regions().last().spec_size() == len
                    &&& final(self).spec_regions().last().spec_flag() == flag
                    &&& frames.len() == plan.len() + if guard { 1int } else { 0int }
                    &&& forall|j: int| 0 <= j < plan.len() ==> (#[trigger] frames[j]) is Data
                        && frames[j].spec_frame_size() == plan[j]
                    &&& guard ==> frames.last() == Frame::Guard(GuardFrame { size: FrameSize::Size4Kb })
                    &&& r.is_ok() && frames_aligned(va as int, frames) ==> frames_installed(&*final(self), va as int, frames, flag)
                }
            }),
    {
        let ghost a0 = *alloc;
        let start = VirtAddr::new(va);
        proof {
            crate::addr::lemma_in_width_masked(va);
            assert(start.spec_addr() == va);
        }
        let limit = alloc.end().value();
        let data = match alloc.allocate_frames(&start, len) {
            Ok(d) => d,
            Err(e) => {
                return Err(MapError::NoFrame(e));
            },
        };
        let ghost plan = data@;
        proof {
            let pl0 = frame_plan((va / 4096) as u64, (a0.cursor() / 4096) as u64, ((len + 4095) / 4096) as u64);
            let pos0 = suffix_start(pl0, a0.free_lens(), pl0.len() as int);
            assert(bump_error(a0.cursor(), a0.limit(), pl0, 0, pos0) is None);
            assert(plan.len() == pl0.len());
            assert(forall|j: int| 0 <= j < pl0.len() ==> (#[trigger] plan[j]).spec_size() == pl0[j]);
        }
        let _cur = alloc.current().value();
        proof {
            // every frame handed out lies below the new cursor or is one
            // that was free before
            let pl = crate::frame_allocator::frame_plan(
                (start.spec_addr() / 4096) as u64,
                (a0.cursor() / 4096) as u64,
                ((len + 4095) / 4096) as u64,
            );
            let pos = crate::frame_allocator::suffix_start(pl, a0.free_lens(), pl.len() as int);
            crate::frame_allocator::lemma_suffix_ok(pl, a0.free_lens(), pl.len() as int);
            lemma_prefix_bytes_mono(pl, 0, pos);
            assert forall|i: int| 0 <= i < plan.len() implies alloc.frame_returnable(&(#[trigger] plan[i])) by {
                if i < pos {
                    lemma_prefix_bytes_mono(pl, i + 1, pos);
                    assert(prefix_bytes(pl, i + 1) == prefix_bytes(pl, i) + pl[i].spec_bytes());
                } else {
                    let k = pl[i].spec_class();
                    FrameSize::lemma_class_round_trip(pl[i]);
                    let idx = a0.free(k).len() - crate::frame_allocator::count_class(pl.subrange(i, pl.len() as int), k);
                    assert(0 <= idx < a0.free(k).len()) by {
                        crate::frame_allocator::lemma_count_bounds(pl, i, pos, a0.free_lens(), k);
                    }
                    assert(a0.free(k)[idx] == plan[i].spec_start());
                }
            }
        }
        let ghost pl = frame_plan((va / 4096) as u64, (a0.cursor() / 4096) as u64, ((len + 4095) / 4096) as u64);
        let frames = wrap_frames(data, guard, alloc);
        proof {
            assert forall|j: int| 0 <= j < pl.len() implies (#[trigger] frames@[j]) is Data
                && frames@[j].spec_frame_size() == pl[j] by {
                assert(frames@[j] == Frame::Data(plan[j]));
            }
            lemma_wrapped_bytes(frames@, pl, pl.len() as int);
            assert(pl.subrange(0, pl.len() as int) =~= pl);
            assert(pages_of(pl) == (len + 4095) / 4096);
            if guard {
                lemma_frames_bytes_last(frames@);
                assert(frames@.drop_last() =~= frames@.subrange(0, pl.len() as int));
            } else {
                assert(frames@ =~= frames@.subrange(0, pl.len() as int));
            }
            assert(4096 * pages_of(pl) == 4096 * ((len + 4095) / 4096));
            assert(4096 * ((len + 4095) / 4096) <= len + 4095) by (nonlinear_arith);
            assert(frames_bytes(frames@) <= len + 4095 + 4096);
        }
        let r = self.map_range(va, len, frames, flag, alloc);
        r
    }

    /// Removes the region that holds `va`: clears the leaf entry of each
    /// of its frames and gives its data frames back to `alloc`. Fails with
    /// `UnExisted`, changing nothing, when no region holds `va`.
    pub fn unmap(&mut self, va: u64, alloc: &mut StackFrameAllocator) -> (r: Result<(), AccessSpaceError>)
        requires
            old(self).wf(),
            old(alloc).wf(),
            forall|i: int| 0 <= i < old(self).spec_regions().len()
                ==> frames_returnable(*old(alloc), #[trigger] old(self).spec_regions()[i].spec_frames()),
        ensures
            final(self).wf(),
            final(alloc).wf(),
            final(alloc).cursor() == old(alloc).cursor(),
            final(alloc).limit() == old(alloc).limit(),
            final(self).spec_root() == old(self).spec_root(),
            find_region(old(self).spec_regions(), va as int) is None ==> r == Err::<(), AccessSpaceError>(AccessSpaceError::UnExisted)
                && final(self).spec_regions() == old(self).spec_regions() && *final(alloc) == *old(alloc),
            find_region(old(self).spec_regions(), va as int) is Some ==> {
                let i = find_region(old(self).spec_regions(), va as int).unwrap();
                let reg = old(self).spec_regions()[i];
                &&& r.is_ok()
                &&& final(self).spec_regions() == old(self).spec_regions().remove(i)
                &&& forall|k: nat| k < 3 ==> #[trigger] final(alloc).free(k) == old(alloc).free(k) + released(reg.spec_frames(), k)
                &&& forall|j: int| 0 <= j < reg.spec_frames().len()
                    && (#[trigger] final(self).walk(frame_va(reg, j) as u64, frame_layer(reg.spec_frames()[j].spec_frame_size()))) is Some
                    ==> final(self).spec_entries()[final(self).walk(frame_va(reg, j) as u64, frame_layer(reg.spec_frames()[j].spec_frame_size())).unwrap()].entry == 0
            },
    {
        let mut i: usize = 0;
        let n = self.regions.len();
        while i < n
            invariant
                n == self.regions@.len(),
                *self == *old(self),
                i <= n,
                find_region(self.regions@.subrange(0, i as int), va as int) is None,
            ensures
                n == self.regions@.len(),
                *self == *old(self),
                i <= n,
                find_region(self.regions@.subrange(0, i as int), va as int) is None,
                i < n ==> self.regions@[i as int].contains(va as int),
            decreases n - i,
        {
            proof {
                assert(self.regions@.subrange(0, i + 1).drop_last() =~= self.regions@.subrange(0, i as int));
            }
            if self.regions[i].is_in_range(va) {
                break;
            }
            i = i + 1;
        }
        if i == n {
            proof {
                assert(self.regions@.subrange(0, i as int) =~= self.regions@);
            }
            return Err(AccessSpaceError::UnExisted);
        }
        proof {
            lemma_find_region_prefix(self.regions@, i as int, va as int);
        }
        let ghost reg = self.regions@[i as int];
        let ghost rs0 = self.regions@;
        // clear the leaf entry of every frame
        let mut j: usize = 0;
        let mut cur: u64 = self.regions[i].vaddr;
        let nf = self.regions[i].frames.len();
        proof {
            assert(reg.wf());
            assert(reg.spec_frames().subrange(0, 0) =~= Seq::<Frame>::empty());
        }
        while j < nf
            invariant
                self.wf(),
                self.spec_regions() == rs0,
                self.spec_root() == old(self).spec_root(),
                i < rs0.len(),
                reg == rs0[i as int],
                reg.wf(),
                nf == reg.spec_frames().len(),
                j <= nf,
                cur == frame_va(reg, j as int),
                forall|q: int| 0 <= q < j && (#[trigger] self.walk(frame_va(reg, q) as u64, frame_layer(reg.spec_frames()[q].spec_frame_size()))) is Some
                    ==> self.spec_entries()[self.walk(frame_va(reg, q) as u64, frame_layer(reg.spec_frames()[q].spec_frame_size())).unwrap()].entry == 0,
            decreases nf - j,
        {
            let size = self.regions[i].frames[j].frame_size();
            let layer: usize = match size {
                FrameSize::Size4Kb => 3,
                FrameSize::Size2Mb => 2,
                FrameSize::Size1Gb => 1,
            };
            proof {
                lemma_frames_bytes_prefix(reg.spec_frames(), j as int);
            }
            match self.find_slot(cur, layer) {
                Some(k) => {
                    let ghost (e0, a0, l0) = (self.spec_entries(), self.spec_table_addrs(), self.spec_levels());
                    let ghost s0 = *self;
                    self.table_entries.set(k, PageTableEntry::new());
                    proof {
                        let e1 = self.spec_entries();
                        assert(e1 == e0.update(k as int, PageTableEntry { entry: 0 }));
                        lemma_zero_entry_invalid();
                        lemma_write_keeps(e0, a0, l0, s0.spec_parents(), k as int, PageTableEntry { entry: 0 });
                        assert forall|q: int| 0 <= q < j + 1 && (#[trigger] self.walk(frame_va(reg, q) as u64, frame_layer(reg.spec_frames()[q].spec_frame_size()))) is Some
                            implies self.spec_entries()[self.walk(frame_va(reg, q) as u64, frame_layer(reg.spec_frames()[q].spec_frame_size())).unwrap()].entry == 0 by {
                            let vq = frame_va(reg, q) as u64;
                            let lq = frame_layer(reg.spec_frames()[q].spec_frame_size());
                            lemma_walk_clear(e0, a0, k as int, 0, 0, vq, lq);
                            assert(self.spec_table_addrs() == a0);
                            lemma_walk_levels(e0, a0, l0, 0, 0, vq, lq);
                            if s0.walk(vq, lq) is Some {
                                let w = s0.walk(vq, lq).unwrap();
                                lemma_index_bound(vq, lq);
                                lemma_slot(w / 512, spec_table_index(vq, lq) as int, a0.len() as int);
                            }
                            if q < j {
                                assert(s0.walk(vq, lq) is Some ==> s0.spec_entries()[s0.walk(vq, lq).unwrap()].entry == 0);
                            } else {
                                assert(q == j);
                                assert(vq == cur);
                                assert(lq == layer);
                                assert(s0.walk(vq, lq) == Some(k as int));
                            }
                        }
                    }
                },
                None => {},
            }
            cur = cur + size.bytes();
            j = j + 1;
        }
        let ghost s_end = *self;
        let removed = self.regions.remove(i);
        proof {
            assert(removed == reg);
            assert(self.spec_entries() == s_end.spec_entries());
            assert(self.spec_table_addrs() == s_end.spec_table_addrs());
            assert forall|q: int| 0 <= q < reg.spec_frames().len()
                && (#[trigger] self.walk(frame_va(reg, q) as u64, frame_layer(reg.spec_frames()[q].spec_frame_size()))) is Some
                implies self.spec_entries()[self.walk(frame_va(reg, q) as u64, frame_layer(reg.spec_frames()[q].spec_frame_size())).unwrap()].entry == 0 by {
                let vq = frame_va(reg, q) as u64;
                let lq = frame_layer(reg.spec_frames()[q].spec_frame_size());
                assert(self.walk(vq, lq) == s_end.walk(vq, lq));
            }
            assert(self.spec_regions() =~= rs0.remove(i as int));
            assert forall|a: int| 0 <= a < self.spec_regions().len() implies (#[trigger] self.spec_regions()[a]).wf() by {
                if a < i {
                    assert(self.spec_regions()[a] == rs0[a]);
                } else {
                    assert(self.spec_regions()[a] == rs0[a + 1]);
                }
            }
            assert forall|a: int, b: int| 0 <= a < b < self.spec_regions().len() implies
                (#[trigger] self.spec_regions()[a]).spec_start() + self.spec_regions()[a].spec_size()
                    <= (#[trigger] self.spec_regions()[b]).spec_start()
                || self.spec_regions()[b].spec_start() + self.spec_regions()[b].spec_size() <= self.spec_regions()[a].spec_start() by {
                let a0 = if a < i { a } else { a + 1 };
                let b0 = if b < i { b } else { b + 1 };
                assert(self.spec_regions()[a] == rs0[a0]);
                assert(self.spec_regions()[b] == rs0[b0]);
            }
            assert(frames_returnable(*old(alloc), old(self).spec_regions()[i as int].spec_frames()));
        }
        release_frames(&removed.frames, alloc);
        Ok(())
    }

    /// Installs the leaf entry of each frame, in order, from `va` on, and
    /// stops at the first failure to build a table.
    fn install_frames(&mut self, va: u64, frames: &Vec<Frame>, flag: Option<PageTableFlagsField>, alloc: &mut StackFrameAllocator)
        -> (r: Result<(), MapError>)
        requires
            old(self).wf(),
            old(alloc).wf(),
            va + frames_bytes(frames@) <= u64::MAX,
        ensures
            took_tables(*old(alloc), *final(alloc), final(self).spec_table_addrs()),
            final(self).spec_table_addrs().len() >= old(self).spec_table_addrs().len()
                && final(self).spec_table_addrs().subrange(0, old(self).spec_table_addrs().len() as int) == old(self).spec_table_addrs(),
            final(self).wf(),
            final(alloc).wf(),
            final(alloc).limit() == old(alloc).limit(),
            final(alloc).cursor() >= old(alloc).cursor(),
            final(self).spec_regions() == old(self).spec_regions(),
            final(self).spec_root() == old(self).spec_root(),
            r.is_ok() || table_failure(r.unwrap_err(), &*final(self), &*final(alloc)),
            r.is_ok() && frames_aligned(va as int, frames@)
                ==> outside_kept(*old(self), *final(self), va as int, va + frames_bytes(frames@)),
            r.is_ok() && frames_aligned(va as int, frames@) ==> frames_installed(&*final(self), va as int, frames@, flag),
    {
        let mut result: Result<(), MapError> = Ok(());
        let mut cur = va;
        let mut k: usize = 0;
        proof {
            lemma_took_refl(*alloc, self.spec_table_addrs());
            assert(self.spec_table_addrs().subrange(0, self.spec_table_addrs().len() as int) =~= self.spec_table_addrs());
        }
        proof {
            assert forall|vq: u64, lq: nat| #![trigger old(self).walk(vq, lq)]
                old(self).walk(vq, lq) is Some implies self.walk(vq, lq) == old(self).walk(vq, lq)
                    && self.spec_entries()[old(self).walk(vq, lq).unwrap()] == old(self).spec_entries()[old(self).walk(vq, lq).unwrap()] by {
            }
        }
        while k < frames.len() && result.is_ok()
            invariant
                self.wf(),
                alloc.wf(),
                alloc.limit() == old(alloc).limit(),
                alloc.cursor() >= old(alloc).cursor(),
                self.spec_regions() == old(self).spec_regions(),
                self.spec_root() == old(self).spec_root(),
                k <= frames@.len(),
                cur == va + frames_bytes(frames@.subrange(0, k as int)),
                va + frames_bytes(frames@) <= u64::MAX,
                took_tables(*old(alloc), *alloc, self.spec_table_addrs()),
                self.spec_table_addrs().len() >= old(self).spec_table_addrs().len(),
                self.spec_table_addrs().subrange(0, old(self).spec_table_addrs().len() as int) == old(self).spec_table_addrs(),
                result.is_ok() || table_failure(result.unwrap_err(), &*self, &*alloc),
                result.is_ok() && frames_aligned(va as int, frames@)
                    ==> outside_kept(*old(self), *self, va as int, va + frames_bytes(frames@)),
                result.is_ok() && frames_aligned(va as int, frames@) ==> frames_installed(&*self, va as int, frames@.subrange(0, k as int), flag),
            decreases frames@.len() - k + (if result.is_ok() { 1int } else { 0int }),
        {
            let size = frames[k].frame_size();
            let ghost a_prev = *alloc;
            let ghost s_prev = *self;
            match self.map_frame(cur, &frames[k], flag, alloc) {
                Ok(()) => {
                    proof {
                        lemma_frames_bytes_prefix(frames@, k as int);
                        if frames_aligned(va as int, frames@) {
                            lemma_outside_step(*old(self), s_prev, *self, va, frames@, k as int);
                        }
                        lemma_installed_step(s_prev, *self, va, frames@, k as int, flag);
                        lemma_took_trans(*old(alloc), a_prev, *alloc, s_prev.spec_table_addrs(), self.spec_table_addrs());
                        lemma_prefix_trans(old(self).spec_table_addrs(), s_prev.spec_table_addrs(), self.spec_table_addrs());
                    }
                    cur = cur + size.bytes();
                    k = k + 1;
                },
                Err(err) => {
                    proof {
                        lemma_took_trans(*old(alloc), a_prev, *alloc, s_prev.spec_table_addrs(), self.spec_table_addrs());
                        lemma_prefix_trans(old(self).spec_table_addrs(), s_prev.spec_table_addrs(), self.spec_table_addrs());
                    }
                    result = Err(err);
                },
            }
        }
        proof {
            if result.is_ok() {
                assert(frames@.subrange(0, frames@.len() as int) =~= frames@);
            }
        }
        result
    }

    /// Gives the region that holds `va` the attribute bits `nf`, and
    /// installs the leaf entry of each of its frames again with them,
    /// creating tables where one is missing. Fails with `NoRegion`,
    /// changing nothing, when no region holds `va`.
    pub fn remap(&mut self, va: u64, nf: PageTableFlagsField, alloc: &mut StackFrameAllocator) -> (r: Result<(), MapError>)
        requires
            old(self).wf(),
            old(alloc).wf(),
        ensures
            took_tables(*old(alloc), *final(alloc), final(self).spec_table_addrs()),
            final(self).spec_table_addrs().len() >= old(self).spec_table_addrs().len()
                && final(self).spec_table_addrs().subrange(0, old(self).spec_table_addrs().len() as int) == old(self).spec_table_addrs(),
            final(self).wf(),
            final(alloc).wf(),
            final(alloc).limit() == old(alloc).limit(),
            final(self).spec_root() == old(self).spec_root(),
            find_region(old(self).spec_regions(), va as int) is None ==> r == Err::<(), MapError>(MapError::NoRegion)
                && final(self).spec_regions() == old(self).spec_regions(),
            find_region(old(self).spec_regions(), va as int) is Some ==> {
                let i = find_region(old(self).spec_regions(), va as int).unwrap();
                let reg = old(self).spec_regions()[i];
                let regs = final(self).spec_regions();
                &&& r.is_ok() || table_failure(r.unwrap_err(), &*final(self), &*final(alloc))
                &&& regs.len() == old(self).spec_regions().len()
                &&& forall|a: int| 0 <= a < regs.len() && a != i ==> #[trigger] regs[a] == old(self).spec_regions()[a]
                &&& regs[i].spec_start() == reg.spec_start()
                &&& regs[i].spec_size() == reg.spec_size()
                &&& regs[i].spec_frames() == reg.spec_frames()
                &&& regs[i].spec_flag() == Some(nf)
                &&& r.is_ok() && frames_aligned(reg.spec_start(), reg.spec_frames())
                    ==> frames_installed(&*final(self), reg.spec_start(), reg.spec_frames(), Some(nf))
            },
    {
        let mut i: usize = 0;
        let n = self.regions.len();
        while i < n
            invariant
                n == self.regions@.len(),
                *self == *old(self),
                i <= n,
                find_region(self.regions@.subrange(0, i as int), va as int) is None,
            ensures
                n == self.regions@.len(),
                *self == *old(self),
                i <= n,
                find_region(self.regions@.subrange(0, i as int), va as int) is None,
                i < n ==> self.regions@[i as int].contains(va as int),
            decreases n - i,
        {
            proof {
                assert(self.regions@.subrange(0, i + 1).drop_last() =~= self.regions@.subrange(0, i as int));
            }
            if self.regions[i].is_in_range(va) {
                break;
            }
            i = i + 1;
        }
        if i == n {
            proof {
                assert(self.regions@.subrange(0, i as int) =~= self.regions@);
            }
            proof {
                lemma_took_refl(*alloc, self.spec_table_addrs());
                assert(self.spec_table_addrs().subrange(0, self.spec_table_addrs().len() as int) =~= self.spec_table_addrs());
            }
            return Err(MapError::NoRegion);
        }
        proof {
            lemma_find_region_prefix(self.regions@, i as int, va as int);
        }
        let ghost rs0 = self.regions@;
        let mut reg = self.regions.remove(i);
        proof {
            assert(reg == rs0[i as int]);
            assert(reg.wf());
            assert(self.spec_regions() =~= rs0.remove(i as int));
            assert forall|a: int| 0 <= a < self.spec_regions().len() implies (#[trigger] self.spec_regions()[a]).wf() by {
                if a < i {
                    assert(self.spec_regions()[a] == rs0[a]);
                } else {
                    assert(self.spec_regions()[a] == rs0[a + 1]);
                }
            }
            assert forall|a: int, b: int| 0 <= a < b < self.spec_regions().len() implies
                (#[trigger] self.spec_regions()[a]).spec_start() + self.spec_regions()[a].spec_size()
                    <= (#[trigger] self.spec_regions()[b]).spec_start()
                || self.spec_regions()[b].spec_start() + self.spec_regions()[b].spec_size() <= self.spec_regions()[a].spec_start() by {
                let a0 = if a < i { a } else { a + 1 };
                let b0 = if b < i { b } else { b + 1 };
                assert(self.spec_regions()[a] == rs0[a0]);
                assert(self.spec_regions()[b] == rs0[b0]);
            }
        }
        let result = self.install_frames(reg.vaddr, &reg.frames, Some(nf), alloc);
        reg.replace_flag(nf);
        let ghost s_mid = *self;
        self.regions.insert(i, reg);
        proof {
            let regs = self.spec_regions();
            assert(regs =~= rs0.update(i as int, reg));
            assert(self.spec_entries() == s_mid.spec_entries());
            assert(self.spec_table_addrs() == s_mid.spec_table_addrs());
            assert forall|a: int| 0 <= a < regs.len() implies (#[trigger] regs[a]).wf() by {
                if a != i {
                    assert(regs[a] == rs0[a]);
                }
            }
            assert forall|a: int, b: int| 0 <= a < b < regs.len() implies
                (#[trigger] regs[a]).spec_start() + regs[a].spec_size() <= (#[trigger] regs[b]).spec_start()
                || regs[b].spec_start() + regs[b].spec_size() <= regs[a].spec_start() by {
                assert(regs[a].spec_start() == rs0[a].spec_start() && regs[a].spec_size() == rs0[a].spec_size());
                assert(regs[b].spec_start() == rs0[b].spec_start() && regs[b].spec_size() == rs0[b].spec_size());
            }
            if result.is_ok() && frames_aligned(reg.spec_start(), reg.spec_frames()) {
                assert forall|j: int| 0 <= j < reg.spec_frames().len() implies {
                    let layer = frame_layer(reg.spec_frames()[j].spec_frame_size());
                    let w = self.walk(#[trigger] frame_start(reg.spec_start(), reg.spec_frames(), j) as u64, layer);
                    &&& w is Some
                    &&& self.spec_entries()[w.unwrap()].entry == leaf_bits(reg.spec_frames()[j], layer, Some(nf))
                } by {
                    let layer = frame_layer(reg.spec_frames()[j].spec_frame_size());
                    let x = frame_start(reg.spec_start(), reg.spec_frames(), j) as u64;
                    assert(self.walk(x, layer) == s_mid.walk(x, layer));
                }
            }
        }
        result
    }

    /// Maps the frames, in order, from `va` on, with `flag` on every leaf
    /// entry, and records them as a region of `len` bytes. A range that
    /// meets a mapped region is refused and its frames go back to `alloc`.
    /// When no frame can be had for a table, the entries installed so far
    /// stay, the region is recorded all the same (so that its frames are
    /// released with the space) and the failure is returned.
    pub fn map_range(
        &mut self,
        va: u64,
        len: u64,
        frames: Vec<Frame>,
        flag: Option<PageTableFlagsField>,
        alloc: &mut StackFrameAllocator,
    ) -> (r: Result<(), MapError>)
        requires
            old(self).wf(),
            old(alloc).wf(),
            va + len <= u64::MAX,
            va + frames_bytes(frames@) <= u64::MAX,
            frames_returnable(*old(alloc), frames@),
        ensures
            final(self).wf(),
            final(alloc).wf(),
            final(alloc).limit() == old(alloc).limit(),
            final(alloc).cursor() >= old(alloc).cursor(),
            final(self).spec_root() == old(self).spec_root(),
            overlaps(old(self).spec_regions(), va as int, len as int) ==> r == Err::<(), MapError>(MapError::Overlap)
                && final(self).spec_regions() == old(self).spec_regions()
                && final(self).spec_entries() == old(self).spec_entries()
                && final(self).spec_table_addrs() == old(self).spec_table_addrs(),
            !overlaps(old(self).spec_regions(), va as int, len as int) ==> {
                &&& r.is_ok() || table_failure(r.unwrap_err(), &*final(self), &*final(alloc))
                &&& took_tables(*old(alloc), *final(alloc), final(self).spec_table_addrs())
                &&& final(self).spec_regions().len() == old(self).spec_regions().len() + 1
                &&& final(self).spec_regions().drop_last() == old(self).spec_regions()
                &&& final(self).spec_regions().last().spec_start() == va
                &&& final(self).spec_regions().last().spec_size() == len
                &&& final(self).spec_regions().last().spec_frames() == frames@
                &&& final(self).spec_regions().last().spec_flag() == flag
                &&& r.is_ok() && frames_aligned(va as int, frames@) ==> frames_installed(&*final(self), va as int, frames@, flag)
                &&& r.is_ok() && frames_aligned(va as int, frames@)
                    ==> outside_kept(*old(self), *final(self), va as int, va + frames_bytes(frames@))
            },
    {
        let mut i: usize = 0;
        while i < self.regions.len()
            invariant
                i <= self.regions@.len(),
                self.wf(),
                *self == *old(self),
                *alloc == *old(alloc),
                alloc.wf(),
                va + len <= u64::MAX,
                va + frames_bytes(frames@) <= u64::MAX,
                frames_returnable(*alloc, frames@),
                forall|j: int| 0 <= j < i ==> !(va < (#[trigger] self.regions@[j]).spec_start() + self.regions@[j].spec_size()
                    && self.regions@[j].spec_start() < va + len),
            decreases self.regions@.len() - i,
        {
            let r = &self.regions[i];
            proof {
                assert(self.spec_regions()[i as int].wf());
            }
            if va < r.vaddr + r.size && r.vaddr < va + len {
                release_frames(&frames, alloc);
                proof {
                    assert(va < self.regions@[i as int].spec_start() + self.regions@[i as int].spec_size());
                }
                return Err(MapError::Overlap);
            }
            i = i + 1;
        }
        let result = self.install_frames(va, &frames, flag, alloc);
        proof {
            assert forall|j: int| 0 <= j < self.spec_regions().len() implies !(va < (#[trigger] self.spec_regions()[j]).spec_start()
                + self.spec_regions()[j].spec_size() && self.spec_regions()[j].spec_start() < va + len) by {
                assert(self.spec_regions()[j] == old(self).spec_regions()[j]);
            }
        }
        let ghost before = self.spec_regions();
        let ghost s_before = *self;
        self.regions.push(VmRegion { vaddr: va, size: len, frames, flag });
        proof {
            assert(self.spec_table_addrs() == s_before.spec_table_addrs());
            assert(self.spec_entries() == s_before.spec_entries());
            if result.is_ok() && frames_aligned(va as int, frames@) {
                let s_old = *old(self);
                assert forall|vq: u64, lq: nat| #![trigger s_old.walk(vq, lq)]
                    s_old.walk(vq, lq) is Some && 1 <= lq <= 3
                    && vq as int % block_bytes(lq) == 0
                    && vq <= ADDR_MASK48
                    && (vq as int + block_bytes(lq) <= va || va + frames_bytes(frames@) <= vq)
                    implies self.walk(vq, lq) == s_old.walk(vq, lq)
                        && self.spec_entries()[s_old.walk(vq, lq).unwrap()] == s_old.spec_entries()[s_old.walk(vq, lq).unwrap()] by {
                    assert(self.walk(vq, lq) == s_before.walk(vq, lq));
                }
            }

            if result.is_ok() && frames_aligned(va as int, frames@) {
                assert(frames@.subrange(0, frames@.len() as int) =~= frames@);
                assert forall|j: int| 0 <= j < frames@.len() implies {
                    let layer = frame_layer(frames@[j].spec_frame_size());
                    let w = self.walk(#[trigger] frame_start(va as int, frames@, j) as u64, layer);
                    &&& w is Some
                    &&& self.spec_entries()[w.unwrap()].entry == leaf_bits(frames@[j], layer, flag)
                } by {
                    let layer = frame_layer(frames@[j].spec_frame_size());
                    let x = frame_start(va as int, frames@, j) as u64;
                    assert(self.walk(x, layer) == s_before.walk(x, layer));
                }
            }
            assert(self.spec_regions().drop_last() =~= before);
            assert forall|i: int, j: int| 0 <= i < j < self.spec_regions().len() implies
                (#[trigger] self.spec_regions()[i]).spec_start() + self.spec_regions()[i].spec_size()
                    <= (#[trigger] self.spec_regions()[j]).spec_start()
                || self.spec_regions()[j].spec_start() + self.spec_regions()[j].spec_size() <= self.spec_regions()[i].spec_start() by {
                if j == self.spec_regions().len() - 1 {
                    assert(self.spec_regions()[i] == before[i]);
                } else {
                    assert(self.spec_regions()[i] == before[i]);
                    assert(self.spec_regions()[j] == before[j]);
                }
            }
            assert forall|i: int| 0 <= i < self.spec_regions().len() implies (#[trigger] self.spec_regions()[i]).wf() by {
                if i < before.len() {
                    assert(self.spec_regions()[i] == before[i]);
                }
            }
        }
        result
    }

    /// Copies bytes from the region that holds `va` into `buf`: as many as
    /// `buf` holds, but not past the end of the region. `mem` is physical
    /// memory seen from address zero. Fails with `UnExisted` when no region
    /// holds `va`, or when a byte to be read has no data frame behind it
    /// or lies outside `mem`; `buf` is then left as it was.
    pub fn read_from_space(&self, mem: &[u8], buf: &mut [u8], va: u64) -> (r: Result<usize, AccessSpaceError>)
        requires
            self.wf(),
        ensures
            final(buf)@.len() == old(buf)@.len(),
            old(buf)@.len() <= usize::MAX,
            match find_region(self.spec_regions(), va as int) {
                None => r == Err::<usize, AccessSpaceError>(AccessSpaceError::UnExisted) && final(buf)@ == old(buf)@,
                Some(ri) => {
                    let reg = self.spec_regions()[ri];
                    let cnt = read_count(reg, va as int, old(buf)@.len() as int);
                    if readable(reg, mem@.len() as int, va as int, cnt) {
                        &&& r == Ok::<usize, AccessSpaceError>(cnt as usize)
                        &&& forall|k: int| 0 <= k < cnt ==> #[trigger] final(buf)@[k]
                            == mem@[phys_of(reg.spec_frames(), va - reg.spec_start() + k).unwrap()]
                        &&& forall|k: int| cnt <= k < old(buf)@.len() ==> #[trigger] final(buf)@[k] == old(buf)@[k]
                    } else {
                        r == Err::<usize, AccessSpaceError>(AccessSpaceError::UnExisted) && final(buf)@ == old(buf)@
                    }
                },
            },
    {
        let _blen = buf.len();
        let mut i: usize = 0;
        while i < self.regions.len()
            invariant
                self.wf(),
                buf@ == old(buf)@,
                old(buf)@.len() <= usize::MAX,
                i <= self.regions@.len(),
                find_region(self.regions@.subrange(0, i as int), va as int) is None,
            decreases self.regions@.len() - i,
        {
            proof {
                assert(self.regions@.subrange(0, i + 1).drop_last() =~= self.regions@.subrange(0, i as int));
            }
            if self.regions[i].is_in_range(va) {
                proof {
                    lemma_find_region_prefix(self.regions@, i as int, va as int);
                }
                return self.read_region(i, mem, buf, va);
            }
            i = i + 1;
        }
        proof {
            assert(self.regions@.subrange(0, i as int) =~= self.regions@);
        }
        Err(AccessSpaceError::UnExisted)
    }

    fn read_region(&self, ri: usize, mem: &[u8], buf: &mut [u8], va: u64) -> (r: Result<usize, AccessSpaceError>)
        requires
            self.wf(),
            ri < self.spec_regions().len(),
            self.spec_regions()[ri as int].contains(va as int),
        ensures
            final(buf)@.len() == old(buf)@.len(),
            old(buf)@.len() <= usize::MAX,
            ({
                let reg = self.spec_regions()[ri as int];
                let cnt = read_count(reg, va as int, old(buf)@.len() as int);
                if readable(reg, mem@.len() as int, va as int, cnt) {
                    &&& r == Ok::<usize, AccessSpaceError>(cnt as usize)
                    &&& forall|k: int| 0 <= k < cnt ==> #[trigger] final(buf)@[k]
                        == mem@[phys_of(reg.spec_frames(), va - reg.spec_start() + k).unwrap()]
                    &&& forall|k: int| cnt <= k < old(buf)@.len() ==> #[trigger] final(buf)@[k] == old(buf)@[k]
                } else {
                    r == Err::<usize, AccessSpaceError>(AccessSpaceError::UnExisted) && final(buf)@ == old(buf)@
                }
            }),
    {
        let reg = &self.regions[ri];
        proof {
            assert(reg.wf());
        }
        let off = va - reg.vaddr;
        let rest = reg.size - off;
        let cnt: usize = if (buf.len() as u64) < rest { buf.len() } else { rest as usize };
        // every byte must have memory behind it
        let mut k: usize = 0;
        while k < cnt
            invariant
                k <= cnt,
                buf@ == old(buf)@,
                old(buf)@.len() <= usize::MAX,
                *reg == self.spec_regions()[ri as int],
                cnt == read_count(*reg, va as int, buf@.len() as int),
                off == va - reg.spec_start(),
                off + cnt <= reg.spec_size(),
                reg.wf(),
                forall|j: int| 0 <= j < k ==> byte_readable(*reg, mem@.len() as int, va as int, j),
            decreases cnt - k,
        {
            match translate(&reg.frames, off + k as u64) {
                Some(pa) => {
                    if pa >= mem.len() as u64 {
                        proof {
                            assert(!byte_readable(*reg, mem@.len() as int, va as int, k as int));
                        }
                        return Err(AccessSpaceError::UnExisted);
                    }
                },
                None => {
                    proof {
                        assert(!byte_readable(*reg, mem@.len() as int, va as int, k as int));
                    }
                    return Err(AccessSpaceError::UnExisted);
                },
            }
            k = k + 1;
        }
        let ghost old_buf = buf@;
        let mut k: usize = 0;
        while k < cnt
            invariant
                k <= cnt,
                old(buf)@.len() <= usize::MAX,
                old_buf == old(buf)@,
                cnt <= old_buf.len(),
                cnt == read_count(*reg, va as int, old_buf.len() as int),
                off == va - reg.spec_start(),
                off + cnt <= reg.spec_size(),
                reg.wf(),
                buf@.len() == old_buf.len(),
                forall|j: int| 0 <= j < cnt ==> byte_readable(*reg, mem@.len() as int, va as int, j),
                forall|j: int| 0 <= j < k ==> #[trigger] buf@[j] == mem@[phys_of(reg.spec_frames(), va - reg.spec_start() + j).unwrap()],
                forall|j: int| k <= j < old_buf.len() ==> #[trigger] buf@[j] == old_buf[j],
            decreases cnt - k,
        {
            proof {
                assert(byte_readable(*reg, mem@.len() as int, va as int, k as int));
            }
            match translate(&reg.frames, off + k as u64) {
                Some(pa) => {
                    let mlen = mem.len();
                    assert(pa < mlen);
                    let b = mem[pa as usize];
                    buf[k] = b;
                    assert(buf@[k as int] == mem@[phys_of(reg.spec_frames(), va - reg.spec_start() + k).unwrap()]);
                },
                None => {},
            }
            k = k + 1;
        }
        Ok(cnt)
    }

    /// Releases every data frame of every region and every table frame to
    /// `alloc`, ending the address space.
    pub fn destroy(self, alloc: &mut StackFrameAllocator)
        requires
            old(alloc).wf(),
            self.wf(),
            forall|i: int| 0 <= i < self.spec_regions().len() ==> frames_returnable(*old(alloc), #[trigger] self.spec_regions()[i].spec_frames()),
            forall|t: int| 0 <= t < self.spec_table_addrs().len() ==> page_returnable(*old(alloc), #[trigger] self.spec_table_addrs()[t]),
        ensures
            final(alloc).wf(),
            final(alloc).cursor() == old(alloc).cursor(),
            final(alloc).limit() == old(alloc).limit(),
            final(alloc).free(0) == old(alloc).free(0) + released_all(self.spec_regions(), 0) + self.spec_table_addrs(),
            final(alloc).free(1) == old(alloc).free(1) + released_all(self.spec_regions(), 1),
            final(alloc).free(2) == old(alloc).free(2) + released_all(self.spec_regions(), 2),
    {
        let rs = &self.regions;
        let ghost r0 = rs@;
        let mut i: usize = 0;
        proof {
            assert(r0 == self.spec_regions());
            assert forall|j: int| 0 <= j < r0.len() implies frames_returnable(*alloc, #[trigger] r0[j].spec_frames()) by {
                assert(frames_returnable(*old(alloc), self.spec_regions()[j].spec_frames()));
            }
            assert forall|k: nat| k < 3 implies #[trigger] alloc.free(k) == old(alloc).free(k) + released_all(r0.subrange(0, 0), k) by {
                assert(r0.subrange(0, 0).len() == 0);
                assert(old(alloc).free(k) + Seq::<PhysAddr>::empty() =~= old(alloc).free(k));
            }
        }
        while i < rs.len()
            invariant
                r0 == rs@,
                i <= r0.len(),
                alloc.wf(),
                alloc.cursor() == old(alloc).cursor(),
                alloc.limit() == old(alloc).limit(),
                forall|j: int| 0 <= j < r0.len() ==> frames_returnable(*alloc, #[trigger] r0[j].spec_frames()),
                forall|k: nat| k < 3 ==> #[trigger] alloc.free(k) == old(alloc).free(k) + released_all(r0.subrange(0, i as int), k),
            decreases r0.len() - i,
        {
            let ghost a0 = *alloc;
            proof {
                assert(frames_returnable(*alloc, r0[i as int].spec_frames()));
            }
            release_frames(&rs[i].frames, alloc);
            proof {
                let cur = r0.subrange(0, i + 1);
                assert(cur.drop_last() =~= r0.subrange(0, i as int));
                assert(cur.last() == r0[i as int]);
                assert forall|j: int| 0 <= j < r0.len() implies frames_returnable(*alloc, #[trigger] r0[j].spec_frames()) by {
                    lemma_returnable_stays(a0, *alloc, r0[j].spec_frames());
                }
                assert forall|k: nat| k < 3 implies #[trigger] alloc.free(k) == old(alloc).free(k) + released_all(cur, k) by {
                    assert(old(alloc).free(k) + (released_all(r0.subrange(0, i as int), k) + released(r0[i as int].spec_frames(), k))
                        =~= old(alloc).free(k) + released_all(r0.subrange(0, i as int), k) + released(r0[i as int].spec_frames(), k));
                }
            }
            i = i + 1;
        }
        proof {
            assert(r0.subrange(0, r0.len() as int) =~= r0);
        }
        let addrs = &self.table_addrs;
        let ghost base = *alloc;
        let mut t: usize = 0;
        proof {
            assert(base.free(0) + addrs@.subrange(0, 0) =~= base.free(0));
        }
        while t < addrs.len()
            invariant
                t <= addrs@.len(),
                addrs@ == self.spec_table_addrs(),
                alloc.wf(),
                alloc.cursor() == base.cursor(),
                alloc.limit() == base.limit(),
                forall|u: int| 0 <= u < addrs@.len() ==> page_returnable(base, #[trigger] addrs@[u]),
                alloc.free(0) == base.free(0) + addrs@.subrange(0, t as int),
                alloc.free(1) == base.free(1),
                alloc.free(2) == base.free(2),
            decreases addrs@.len() - t,
        {
            let ghost a0 = *alloc;
            proof {
                assert(page_returnable(base, addrs@[t as int]));
            }
            alloc.unsafe_deallo(addrs[t]);
            proof {
                assert(alloc.free(0) =~= base.free(0) + addrs@.subrange(0, t + 1));
                assert(alloc.free(1) == a0.free(1));
                assert(alloc.free(2) == a0.free(2));
            }
            t = t + 1;
        }
        proof {
            assert(addrs@.subrange(0, addrs@.len() as int) =~= addrs@);
        }
    }
}

/// Bytes that a read of `buf_len` bytes at `va` takes from region `reg`.
pub open spec fn read_count(reg: VmRegion, va: int, buf_len: int) -> int {
    if buf_len < reg.spec_start() + reg.spec_size() - va {
        buf_len
    } else {
        reg.spec_start() + reg.spec_size() - va
    }
}

/// Byte `k` of a read at `va` from `reg` has a data frame behind it that
/// lies within memory of `mem_len` bytes.
pub open spec fn byte_readable(reg: VmRegion, mem_len: int, va: int, k: int) -> bool {
    let p = phys_of(reg.spec_frames(), va - reg.spec_start() + k);
    p.is_some() && p.unwrap() < mem_len
}

/// Every byte of a read of `cnt` bytes at `va` from `reg` is readable.
pub open spec fn readable(reg: VmRegion, mem_len: int, va: int, cnt: int) -> bool {
    forall|k: int| 0 <= k < cnt ==> #[trigger] byte_readable(reg, mem_len, va, k)
}

/// Every data frame of `frames` can go back to `alloc`.
pub open spec fn frames_returnable(alloc: StackFrameAllocator, frames: Seq<Frame>) -> bool {
    forall|i: int| 0 <= i < frames.len() ==> match #[trigger] frames[i] {
        Frame::Data(d) => alloc.frame_returnable(&d),
        _ => true,
    }
}

/// The 4 KiB page at `pa` can go back to `alloc`.
pub open spec fn page_returnable(alloc: StackFrameAllocator, pa: PhysAddr) -> bool {
    &&& pa.view() % 4096 == 0
    &&& (pa.view() + 4096 <= alloc.cursor() || pa.view() >= alloc.limit())
    &&& pa.view() + 4096 <= ADDR_MASK48 + 1
}

/// The level whose leaf entries map frames of class `size`.
pub open spec fn frame_layer(size: FrameSize) -> nat {
    match size {
        FrameSize::Size4Kb => 3,
        FrameSize::Size2Mb => 2,
        FrameSize::Size1Gb => 1,
    }
}

/// The leaf entry that maps `frame` at `layer` with `flag`.
pub open spec fn leaf_bits(frame: Frame, layer: nat, flag: Option<PageTableFlagsField>) -> u64 {
    match frame {
        Frame::Data(d) => if layer == 3 {
            d.spec_start().view() | flag_bits(flag) | TABLE_OR_BLOCK | VALID
        } else {
            ((d.spec_start().view() | flag_bits(flag)) & !TABLE_OR_BLOCK) | VALID
        },
        _ => flag_bits(flag) & PGFLAG_MASK & !VALID,
    }
}

/// The entry at index `x` of table `t` of the store.
pub open spec fn slot_entry(entries: Seq<PageTableEntry>, t: int, x: int) -> PageTableEntry {
    entries[t * 512 + x]
}

/// No two tables share an address.
pub open spec fn unique_addrs(addrs: Seq<PhysAddr>) -> bool {
    forall|i: int, j: int| 0 <= i < addrs.len() && 0 <= j < addrs.len() && i != j ==> (#[trigger] addrs[i]).view() != (#[trigger] addrs[j]).view()
}

/// Every valid table entry of a table above the last level points to a
/// known table one level further down.
pub open spec fn tree_levels(entries: Seq<PageTableEntry>, addrs: Seq<PhysAddr>, levels: Seq<nat>) -> bool {
    forall|t: int, x: int| 0 <= t < addrs.len() && 0 <= x < 512 && levels[t] < 3
        && (#[trigger] slot_entry(entries, t, x)).spec_valid() && slot_entry(entries, t, x).spec_table_bit()
        ==> {
            let to = table_at(addrs, (slot_entry(entries, t, x).entry & ADDR_MASK) as int);
            &&& to is Some
            &&& levels[to.unwrap()] == levels[t] + 1
        }
}

/// Every valid table entry of a table above the last level is the one
/// recorded as the parent of the table it points to: no table has two
/// parents.
pub open spec fn parent_ok(entries: Seq<PageTableEntry>, addrs: Seq<PhysAddr>, levels: Seq<nat>, parents: Seq<int>) -> bool {
    forall|t: int, x: int| 0 <= t < addrs.len() && 0 <= x < 512 && levels[t] < 3
        && (#[trigger] slot_entry(entries, t, x)).spec_valid() && slot_entry(entries, t, x).spec_table_bit()
        ==> parents[table_at(addrs, (slot_entry(entries, t, x).entry & ADDR_MASK) as int).unwrap()] == t * 512 + x
}

/// Writing one slot keeps the store's invariants when the new entry is
/// not a valid table entry, or sits in a last-level table: levels and
/// parents of the tables above stay as they were.
proof fn lemma_write_keeps(e0: Seq<PageTableEntry>, a: Seq<PhysAddr>, l: Seq<nat>, p: Seq<int>, k: int, e: PageTableEntry)
    requires
        tree_levels(e0, a, l),
        parent_ok(e0, a, l, p),
        l.len() == a.len(),
        p.len() == a.len(),
        unique_addrs(a),
        e0.len() == 512 * a.len(),
        0 <= k < e0.len(),
        l[k / 512] == 3 || !(e.spec_valid() && e.spec_table_bit()),
    ensures
        tree_levels(e0.update(k, e), a, l),
        parent_ok(e0.update(k, e), a, l, p),
{
    let e1 = e0.update(k, e);
    assert forall|t1: int, x: int| 0 <= t1 < a.len() && 0 <= x < 512 && l[t1] < 3
        && (#[trigger] slot_entry(e1, t1, x)).spec_valid() && slot_entry(e1, t1, x).spec_table_bit()
        implies slot_entry(e1, t1, x) == slot_entry(e0, t1, x) by {
        lemma_slot(t1, x, a.len() as int);
        lemma_div_slot(t1, x);
    }
    assert(a.subrange(0, a.len() as int) =~= a);
    assert(l.subrange(0, l.len() as int) =~= l);
    assert(p.subrange(0, a.len() as int) =~= p);
    lemma_parent_keep(e0, a, l, p, e1, a, l, p);
}

/// Parents stay right when the only valid table entries above the last
/// level afterwards are old ones, unchanged, and tables are only added.
proof fn lemma_parent_keep(
    e0: Seq<PageTableEntry>,
    a0: Seq<PhysAddr>,
    l0: Seq<nat>,
    p0: Seq<int>,
    e1: Seq<PageTableEntry>,
    a1: Seq<PhysAddr>,
    l1: Seq<nat>,
    p1: Seq<int>,
)
    requires
        parent_ok(e0, a0, l0, p0),
        tree_levels(e0, a0, l0),
        l0.len() == a0.len(),
        unique_addrs(a1),
        a1.len() >= a0.len(),
        a1.subrange(0, a0.len() as int) == a0,
        l1.len() == a1.len(),
        l1.subrange(0, l0.len() as int) == l0,
        p1.subrange(0, a0.len() as int) == p0.subrange(0, a0.len() as int),
        p0.len() == a0.len(),
        p1.len() == a1.len(),
        forall|t: int, x: int| 0 <= t < a1.len() && 0 <= x < 512 && l1[t] < 3
            && (#[trigger] slot_entry(e1, t, x)).spec_valid() && slot_entry(e1, t, x).spec_table_bit()
            ==> t < a0.len() && slot_entry(e1, t, x) == slot_entry(e0, t, x),
    ensures
        parent_ok(e1, a1, l1, p1),
{
    assert forall|t: int, x: int| 0 <= t < a1.len() && 0 <= x < 512 && l1[t] < 3
        && (#[trigger] slot_entry(e1, t, x)).spec_valid() && slot_entry(e1, t, x).spec_table_bit()
        implies p1[table_at(a1, (slot_entry(e1, t, x).entry & ADDR_MASK) as int).unwrap()] == t * 512 + x by {
        assert(l1.subrange(0, l0.len() as int)[t] == l1[t]);
        assert(l1[t] == l0[t]);
        assert(slot_entry(e0, t, x).spec_valid());
        let q = (slot_entry(e0, t, x).entry & ADDR_MASK) as int;
        let t2 = table_at(a0, q).unwrap();
        let c = choose|c: int| 0 <= c < a0.len() && a0[c].view() == q && forall|j: int| 0 <= j < c ==> a0[j].view() != q;
        assert(t2 == c);
        assert(a1.subrange(0, a0.len() as int)[t2] == a1[t2]);
        assert(a1[t2] == a0[t2]);
        lemma_table_at_index(a1, t2);
        assert(p1.subrange(0, a0.len() as int)[t2] == p1[t2]);
        assert(p0.subrange(0, a0.len() as int)[t2] == p0[t2]);
        assert(p1[t2] == p0[t2]);
    }
}

/// The entry at slot `s` is a valid entry of a table the store knows.
pub open spec fn known_table(entries: Seq<PageTableEntry>, addrs: Seq<PhysAddr>, s: int) -> bool {
    &&& entries[s].spec_valid()
    &&& entries[s].spec_table_bit()
    &&& table_at(addrs, (entries[s].entry & ADDR_MASK) as int) is Some
}

/// A walk that gets somewhere reads only slots that hold entries of known
/// tables on the way down; a store that keeps those slots and only adds
/// tables at fresh addresses gives the same walk.
proof fn lemma_walk_keep(
    e0: Seq<PageTableEntry>,
    a0: Seq<PhysAddr>,
    e1: Seq<PageTableEntry>,
    a1: Seq<PhysAddr>,
    t: int,
    l: nat,
    va: u64,
    layer: nat,
)
    requires
        0 <= t < a0.len(),
        e0.len() == 512 * a0.len(),
        e1.len() >= e0.len(),
        unique_addrs(a1),
        a1.len() >= a0.len(),
        a1.subrange(0, a0.len() as int) == a0,
        forall|s: int| 0 <= s < e0.len() && #[trigger] known_table(e0, a0, s) ==> e1[s] == e0[s],
        walk_from(e0, a0, t, l, va, layer) is Some,
    ensures
        walk_from(e1, a1, t, l, va, layer) == walk_from(e0, a0, t, l, va, layer),
    decreases layer - l,
{
    lemma_index_bound(va, l);
    lemma_slot(t, spec_table_index(va, l) as int, a0.len() as int);
    if l < layer {
        let slot = t * 512 + spec_table_index(va, l) as int;
        assert(known_table(e0, a0, slot));
        let q = (e0[slot].entry & ADDR_MASK) as int;
        let t2 = table_at(a0, q).unwrap();
        let c = choose|c: int| 0 <= c < a0.len() && a0[c].view() == q && forall|j: int| 0 <= j < c ==> a0[j].view() != q;
        assert(t2 == c);
        assert(a1.subrange(0, a0.len() as int)[t2] == a1[t2]);
        lemma_table_at_index(a1, t2);
        lemma_walk_keep(e0, a0, e1, a1, t2, l + 1, va, layer);
    }
}

/// Changing one slot that a walk does not pass through on its way down
/// leaves the walk as it was.
proof fn lemma_walk_path_keep(
    e0: Seq<PageTableEntry>,
    a: Seq<PhysAddr>,
    k: int,
    e: PageTableEntry,
    t: int,
    l: nat,
    va: u64,
    layer: nat,
)
    requires
        0 <= t < a.len(),
        e0.len() == 512 * a.len(),
        0 <= k < e0.len(),
        forall|l2: nat| l <= l2 < layer ==> #[trigger] walk_from(e0, a, t, l, va, l2) != Some(k),
    ensures
        walk_from(e0.update(k, e), a, t, l, va, layer) == walk_from(e0, a, t, l, va, layer),
    decreases layer - l,
{
    lemma_index_bound(va, l);
    lemma_slot(t, spec_table_index(va, l) as int, a.len() as int);
    if l < layer {
        let slot = t * 512 + spec_table_index(va, l) as int;
        assert(walk_from(e0, a, t, l, va, l) == Some(slot));
        let en = e0[slot];
        if en.spec_valid() && en.spec_table_bit() {
            match table_at(a, (en.entry & ADDR_MASK) as int) {
                Some(t2) => {
                    assert forall|l2: nat| l + 1 <= l2 < layer implies #[trigger] walk_from(e0, a, t2, l + 1, va, l2) != Some(k) by {
                        assert(walk_from(e0, a, t, l, va, l2) == walk_from(e0, a, t2, l + 1, va, l2));
                    }
                    lemma_walk_path_keep(e0, a, k, e, t2, l + 1, va, layer);
                },
                None => {},
            }
        }
    }
}

/// Two walks that reach the same slot took the same path: their indices
/// agree at every level down to that one.
proof fn lemma_same_slot_same_path(
    en: Seq<PageTableEntry>,
    a: Seq<PhysAddr>,
    lv: Seq<nat>,
    p: Seq<int>,
    va1: u64,
    va2: u64,
    layer: nat,
)
    requires
        tree_levels(en, a, lv),
        parent_ok(en, a, lv, p),
        lv.len() == a.len(),
        a.len() >= 1,
        lv[0] == 0,
        en.len() == 512 * a.len(),
        layer <= 3,
        walk_from(en, a, 0, 0, va1, layer) is Some,
        walk_from(en, a, 0, 0, va1, layer) == walk_from(en, a, 0, 0, va2, layer),
    ensures
        forall|l: nat| l <= layer ==> #[trigger] spec_table_index(va1, l) == spec_table_index(va2, l),
    decreases layer,
{
    let k = walk_from(en, a, 0, 0, va1, layer).unwrap();
    lemma_walk_levels(en, a, lv, 0, 0, va1, layer);
    lemma_walk_levels(en, a, lv, 0, 0, va2, layer);
    if layer > 0 {
        let pl = (layer - 1) as nat;
        lemma_walk_compose(en, a, 0, 0, va1, pl, layer);
        lemma_walk_compose(en, a, 0, 0, va2, pl, layer);
        lemma_walk_levels(en, a, lv, 0, 0, va1, pl);
        lemma_walk_levels(en, a, lv, 0, 0, va2, pl);
        let s1 = walk_from(en, a, 0, 0, va1, pl).unwrap();
        let s2 = walk_from(en, a, 0, 0, va2, pl).unwrap();
        let (u1, u2) = (s1 / 512, s2 / 512);
        lemma_index_bound(va1, pl);
        lemma_index_bound(va2, pl);
        lemma_div_slot(u1, spec_table_index(va1, pl) as int);
        lemma_div_slot(u2, spec_table_index(va2, pl) as int);
        assert(slot_entry(en, u1, spec_table_index(va1, pl) as int) == en[s1]);
        assert(slot_entry(en, u2, spec_table_index(va2, pl) as int) == en[s2]);
        lemma_index_bound(va1, layer);
        reveal_with_fuel(walk_from, 2);
        assert(walk_from(en, a, u1, pl, va1, layer) == Some(k));
        assert(walk_from(en, a, u2, pl, va2, layer) == Some(k));
        let q1 = (en[s1].entry & ADDR_MASK) as int;
        let q2 = (en[s2].entry & ADDR_MASK) as int;
        let t1 = table_at(a, q1).unwrap();
        let t2 = table_at(a, q2).unwrap();
        assert(k == t1 * 512 + spec_table_index(va1, layer));
        assert(k == t2 * 512 + spec_table_index(va2, layer));
        let c1 = choose|c: int| 0 <= c < a.len() && a[c].view() == q1 && forall|j: int| 0 <= j < c ==> a[j].view() != q1;
        let c2 = choose|c: int| 0 <= c < a.len() && a[c].view() == q2 && forall|j: int| 0 <= j < c ==> a[j].view() != q2;
        assert(t1 == c1 && t2 == c2);
        lemma_div_slot(t1, spec_table_index(va1, layer) as int);
        lemma_div_slot(t2, spec_table_index(va2, layer) as int);
        assert(t1 == t2);
        assert(p[t1] == s1);
        assert(p[t2] == s2);
        assert(s1 == s2);
        lemma_same_slot_same_path(en, a, lv, p, va1, va2, pl);
    }
}

/// Virtual addresses whose indices agree down to `layer` lie in the same
/// block of that level.
proof fn lemma_same_path_same_block(va1: u64, va2: u64, layer: nat)
    requires
        1 <= layer <= 3,
        va1 <= ADDR_MASK48,
        va2 <= ADDR_MASK48,
        forall|l: nat| l <= layer ==> #[trigger] spec_table_index(va1, l) == spec_table_index(va2, l),
    ensures
        va1 as int / block_bytes(layer) == va2 as int / block_bytes(layer),
{
    vstd::arithmetic::power2::lemma2_to64();
    vstd::arithmetic::power2::lemma2_to64_rest();
    assert(spec_table_index(va1, 0) == spec_table_index(va2, 0));
    assert(spec_table_index(va1, 1) == spec_table_index(va2, 1));
    let (x1, x2) = (va1 as int, va2 as int);
    vstd::arithmetic::div_mod::lemma_div_is_ordered(x1, 0xffff_ffff_ffff, 0x80_0000_0000);
    vstd::arithmetic::div_mod::lemma_div_is_ordered(x2, 0xffff_ffff_ffff, 0x80_0000_0000);
    assert(0xffff_ffff_ffffint / 0x80_0000_0000 == 511);
    lemma_div_step(x1, 0x4000_0000);
    lemma_div_step(x2, 0x4000_0000);
    if layer >= 2 {
        assert(spec_table_index(va1, 2) == spec_table_index(va2, 2));
        lemma_div_step(x1, 0x20_0000);
        lemma_div_step(x2, 0x20_0000);
    }
    if layer >= 3 {
        assert(spec_table_index(va1, 3) == spec_table_index(va2, 3));
        lemma_div_step(x1, 0x1000);
        lemma_div_step(x2, 0x1000);
    }
}

/// `x / c` is `512` times `x / (512 c)` plus its remainder by 512.
proof fn lemma_div_step(x: int, c: int)
    requires
        x >= 0,
        c > 0,
    ensures
        x / c == 512 * (x / (512 * c)) + (x / c) % 512,
{
    vstd::arithmetic::div_mod::lemma_div_denominator(x, c, 512);
    lemma_fundamental_div_mod(x / c, 512);
}

/// Bytes of a block mapped at `layer`.
pub open spec fn block_bytes(layer: nat) -> int {
    if layer >= 3 {
        0x1000
    } else if layer == 2 {
        0x20_0000
    } else {
        0x4000_0000
    }
}

/// Two addresses in the same block, the first at its start: the second
/// lies in the block.
proof fn lemma_block_order(x: int, y: int, b: int)
    requires
        b > 0,
        x >= 0,
        y >= 0,
        x / b == y / b,
        x % b == 0,
    ensures
        x <= y < x + b,
{
    lemma_fundamental_div_mod(x, b);
    lemma_fundamental_div_mod(y, b);
    vstd::arithmetic::div_mod::lemma_mod_bound(y, b);
}

/// Installing the leaf of a later frame keeps the leaf of an earlier
/// frame: both are aligned to their sizes and the later one starts past the
/// end of the earlier one, so the later walk and write never touch the
/// earlier path.
proof fn lemma_install_keeps(
    e0: Seq<PageTableEntry>,
    a0: Seq<PhysAddr>,
    e1: Seq<PageTableEntry>,
    a1: Seq<PhysAddr>,
    l1: Seq<nat>,
    p1: Seq<int>,
    k: int,
    e: PageTableEntry,
    vq: u64,
    lq: nat,
    kq: int,
    v: u64,
    lv: nat,
)
    requires
        e0.len() == 512 * a0.len(),
        a0.len() >= 1,
        e1.len() == 512 * a1.len(),
        unique_addrs(a1),
        a1.len() >= a0.len(),
        a1.subrange(0, a0.len() as int) == a0,
        tree_levels(e1, a1, l1),
        parent_ok(e1, a1, l1, p1),
        l1.len() == a1.len(),
        l1[0] == 0,
        forall|s: int| 0 <= s < e0.len() && #[trigger] known_table(e0, a0, s) ==> e1[s] == e0[s],
        forall|s: int| 0 <= s < e0.len() && #[trigger] e1[s] != e0[s]
            ==> exists|l: nat| l < lv && #[trigger] walk_from(e1, a1, 0, 0, v, l) == Some(s),
        walk_from(e1, a1, 0, 0, v, lv) == Some(k),
        walk_from(e0, a0, 0, 0, vq, lq) == Some(kq),
        0 <= kq < e0.len(),
        1 <= lq <= 3,
        1 <= lv <= 3,
        vq as int % block_bytes(lq) == 0,
        v as int % block_bytes(lv) == 0,
        vq as int + block_bytes(lq) <= v || v as int + block_bytes(lv) <= vq,
        v <= ADDR_MASK48,
        vq <= ADDR_MASK48,
    ensures
        walk_from(e1.update(k, e), a1, 0, 0, vq, lq) == Some(kq),
        e1.update(k, e)[kq] == e0[kq],
{
    lemma_walk_keep(e0, a0, e1, a1, 0, 0, vq, lq);
    lemma_walk_levels(e1, a1, l1, 0, 0, v, lv);
    lemma_walk_levels(e1, a1, l1, 0, 0, vq, lq);
    assert(0 <= k < e1.len()) by {
        lemma_slot(k / 512, spec_table_index(v, lv) as int, a1.len() as int);
    }
    // the earlier leaf was not changed on the way down
    if e1[kq] != e0[kq] {
        let l = choose|l: nat| l < lv && #[trigger] walk_from(e1, a1, 0, 0, v, l) == Some(kq);
        lemma_walk_levels(e1, a1, l1, 0, 0, v, l);
        lemma_same_slot_same_path(e1, a1, l1, p1, v, vq, lq);
        lemma_same_path_same_block(vq, v, lq);
        lemma_block_order(vq as int, v as int, block_bytes(lq));
    }
    // the later leaf is not on the earlier path
    assert forall|l2: nat| 0 <= l2 < lq implies #[trigger] walk_from(e1, a1, 0, 0, vq, l2) != Some(k) by {
        if walk_from(e1, a1, 0, 0, vq, l2) == Some(k) {
            lemma_walk_levels(e1, a1, l1, 0, 0, vq, l2);
            lemma_same_slot_same_path(e1, a1, l1, p1, vq, v, lv);
            lemma_same_path_same_block(v, vq, lv);
            lemma_block_order(v as int, vq as int, block_bytes(lv));
        }
    }
    lemma_walk_path_keep(e1, a1, k, e, 0, 0, vq, lq);
    // nor is it the earlier leaf
    if kq == k {
        lemma_same_slot_same_path(e1, a1, l1, p1, vq, v, lq);
        lemma_same_path_same_block(vq, v, lq);
        lemma_block_order(vq as int, v as int, block_bytes(lq));
    }
}

proof fn lemma_table_at_index(addrs: Seq<PhysAddr>, t: int)
    requires
        unique_addrs(addrs),
        0 <= t < addrs.len(),
    ensures
        table_at(addrs, addrs[t].view() as int) == Some(t),
{
    let p = addrs[t].view() as int;
    assert forall|j: int| 0 <= j < t implies addrs[j].view() != p by {
        assert(addrs[j].view() != addrs[t].view());
    }
    assert(0 <= t < addrs.len() && addrs[t].view() == p && forall|j: int| 0 <= j < t ==> addrs[j].view() != p);
    let c = choose|c: int| 0 <= c < addrs.len() && addrs[c].view() == p && forall|j: int| 0 <= j < c ==> addrs[j].view() != p;
    if c != t {
        assert(addrs[c].view() != addrs[t].view());
    }
}

proof fn lemma_table_at_none(addrs: Seq<PhysAddr>, p: int)
    requires
        table_at(addrs, p) is None,
    ensures
        forall|j: int| 0 <= j < addrs.len() ==> addrs[j].view() != p,
{
    assert forall|j: int| 0 <= j < addrs.len() implies addrs[j].view() != p by {
        if addrs[j].view() == p {
            // the first index holding p would exist
            let _first = choose_first(addrs, p, j);
        }
    }
}

/// Some index no later than `j` is the first that holds `p`.
proof fn choose_first(addrs: Seq<PhysAddr>, p: int, j: int) -> (c: int)
    requires
        0 <= j < addrs.len(),
        addrs[j].view() == p,
    ensures
        0 <= c <= j,
        addrs[c].view() == p,
        forall|i: int| 0 <= i < c ==> addrs[i].view() != p,
    decreases j,
{
    if exists|i: int| 0 <= i < j && addrs[i].view() == p {
        let i = choose|i: int| 0 <= i < j && addrs[i].view() == p;
        choose_first(addrs, p, i)
    } else {
        j
    }
}

/// Every leaf that `s0` reaches for a block lying wholly below `lo` or at
/// or above `hi` is reached and unchanged in `s1`.
pub open spec fn outside_kept(s0: VmSpace, s1: VmSpace, lo: int, hi: int) -> bool {
    forall|vq: u64, lq: nat| #![trigger s0.walk(vq, lq)]
        s0.walk(vq, lq) is Some && 1 <= lq <= 3
        && vq as int % block_bytes(lq) == 0
        && vq <= ADDR_MASK48
        && (vq as int + block_bytes(lq) <= lo || hi <= vq)
        ==> s1.walk(vq, lq) == s0.walk(vq, lq)
            && s1.spec_entries()[s0.walk(vq, lq).unwrap()] == s0.spec_entries()[s0.walk(vq, lq).unwrap()]
}

/// Installing one more frame of the range keeps every leaf outside it.
proof fn lemma_outside_step(
    s_old: VmSpace,
    s0: VmSpace,
    s1: VmSpace,
    va: u64,
    frames: Seq<Frame>,
    k: int,
)
    requires
        0 <= k < frames.len(),
        frames_aligned(va as int, frames),
        outside_kept(s_old, s0, va as int, va + frames_bytes(frames)),
        ({
            let cur = frame_start(va as int, frames, k) as u64;
            let layer = frame_layer(frames[k].spec_frame_size());
            forall|vq: u64, lq: nat| #![trigger s0.walk(vq, lq)]
                s0.walk(vq, lq) is Some && 1 <= lq <= 3
                && vq as int % block_bytes(lq) == 0
                && cur as int % block_bytes(layer) == 0
                && (vq as int + block_bytes(lq) <= cur || cur as int + block_bytes(layer) <= vq)
                && cur <= ADDR_MASK48
                && vq <= ADDR_MASK48
                ==> s1.walk(vq, lq) == s0.walk(vq, lq)
                    && s1.spec_entries()[s0.walk(vq, lq).unwrap()] == s0.spec_entries()[s0.walk(vq, lq).unwrap()]
        }),
    ensures
        outside_kept(s_old, s1, va as int, va + frames_bytes(frames)),
{
    let cur = frame_start(va as int, frames, k);
    let fk = frames[k].spec_frame_size();
    assert(block_bytes(frame_layer(fk)) == fk.spec_bytes());
    lemma_frames_bytes_prefix(frames, k);
    lemma_frames_bytes_split(frames.subrange(0, k), 0);
    assert(cur % (fk.spec_bytes() as int) == 0);
    assert forall|vq: u64, lq: nat| #![trigger s_old.walk(vq, lq)]
        s_old.walk(vq, lq) is Some && 1 <= lq <= 3
        && vq as int % block_bytes(lq) == 0
        && vq <= ADDR_MASK48
        && (vq as int + block_bytes(lq) <= va || va + frames_bytes(frames) <= vq)
        implies s1.walk(vq, lq) == s_old.walk(vq, lq)
            && s1.spec_entries()[s_old.walk(vq, lq).unwrap()] == s_old.spec_entries()[s_old.walk(vq, lq).unwrap()] by {
        assert(s0.walk(vq, lq) == s_old.walk(vq, lq));
        assert((cur as u64) as int == cur);
    }
}

/// One more frame installed, none of the earlier ones disturbed.
proof fn lemma_installed_step(
    s0: VmSpace,
    s1: VmSpace,
    va: u64,
    frames: Seq<Frame>,
    k: int,
    flag: Option<PageTableFlagsField>,
)
    requires
        s0.wf(),
        0 <= k < frames.len(),
        va + frames_bytes(frames) <= u64::MAX,
        frames_aligned(va as int, frames) ==> frames_installed(&s0, va as int, frames.subrange(0, k), flag),
        ({
            let cur = frame_start(va as int, frames, k) as u64;
            let layer = frame_layer(frames[k].spec_frame_size());
            &&& s1.walk(cur, layer) is Some
            &&& s1.spec_entries()[s1.walk(cur, layer).unwrap()].entry == leaf_bits(frames[k], layer, flag)
            &&& forall|vq: u64, lq: nat| #![trigger s0.walk(vq, lq)]
                s0.walk(vq, lq) is Some && 1 <= lq <= 3
                && vq as int % block_bytes(lq) == 0
                && cur as int % block_bytes(layer) == 0
                && (vq as int + block_bytes(lq) <= cur || cur as int + block_bytes(layer) <= vq)
                && cur <= ADDR_MASK48
                && vq <= ADDR_MASK48
                ==> s1.walk(vq, lq) == s0.walk(vq, lq)
                    && s1.spec_entries()[s0.walk(vq, lq).unwrap()] == s0.spec_entries()[s0.walk(vq, lq).unwrap()]
        }),
    ensures
        frames_aligned(va as int, frames) ==> frames_installed(&s1, va as int, frames.subrange(0, k + 1), flag),
{
    if frames_aligned(va as int, frames) {
        let fk = frames.subrange(0, k + 1);
        let cur = frame_start(va as int, frames, k);
        lemma_frames_bytes_prefix(frames, k);
        assert forall|j: int| 0 <= j < fk.len() implies {
            let layer = frame_layer(fk[j].spec_frame_size());
            let w = s1.walk(#[trigger] frame_start(va as int, fk, j) as u64, layer);
            &&& w is Some
            &&& s1.spec_entries()[w.unwrap()].entry == leaf_bits(fk[j], layer, flag)
        } by {
            assert(fk.subrange(0, j) =~= frames.subrange(0, j));
            assert(fk[j] == frames[j]);
            let fj = frames[j].spec_frame_size();
            assert(block_bytes(frame_layer(fj)) == fj.spec_bytes());
            if j < k {
                let fp = frames.subrange(0, k);
                assert(fp.subrange(0, j) =~= frames.subrange(0, j));
                assert(fp[j] == frames[j]);
                assert(frame_start(va as int, fp, j) == frame_start(va as int, frames, j));
                let vq = frame_start(va as int, frames, j) as u64;
                let lq = frame_layer(fj);
                lemma_frames_bytes_prefix(frames, j);
                assert(frames.subrange(0, k).subrange(0, j + 1) =~= frames.subrange(0, j + 1));
                lemma_frames_bytes_split(frames.subrange(0, k), j + 1);
                let fkk = frames[k].spec_frame_size();
                assert(block_bytes(frame_layer(fkk)) == fkk.spec_bytes());
                assert(s0.walk(vq, lq) is Some);
                lemma_frames_bytes_split(frames.subrange(0, j), 0);
                assert(frame_start(va as int, frames, j) + fj.spec_bytes() <= cur);
                assert(vq as int == frame_start(va as int, frames, j));
                assert(vq as int % block_bytes(lq) == 0);
                assert(cur % block_bytes(frame_layer(fkk)) == 0);
                assert(vq as int + block_bytes(lq) <= cur);
                assert(cur <= ADDR_MASK48);
                assert(s1.walk(vq, lq) == s0.walk(vq, lq));
            } else {
                assert(j == k);
                assert(frame_start(va as int, fk, j) == cur);
            }
        }
    }
}

/// A zero entry is not valid.
proof fn lemma_zero_entry_invalid()
    ensures
        0u64 & 1u64 == 0u64,
{
    assert(0u64 & 1u64 == 0u64) by (bit_vector);
}

proof fn lemma_div_slot(t: int, x: int)
    requires
        0 <= t,
        0 <= x < 512,
    ensures
        (t * 512 + x) / 512 == t,
        (t * 512 + x) % 512 == x,
{
    assert((t * 512 + x) / 512 == t) by (nonlinear_arith)
        requires 0 <= t, 0 <= x < 512;
    assert((t * 512 + x) % 512 == x) by (nonlinear_arith)
        requires 0 <= t, 0 <= x < 512;
}

proof fn lemma_index_bound(va: u64, level: nat)
    ensures
        spec_table_index(va, level) < 512,
{
}

/// A walk to `layer` is a walk to `i` and then on from where it got.
proof fn lemma_walk_compose(entries: Seq<PageTableEntry>, addrs: Seq<PhysAddr>, s: int, l: nat, va: u64, i: nat, layer: nat)
    requires
        0 <= s,
        l <= i <= layer,
    ensures
        walk_from(entries, addrs, s, l, va, layer) == match walk_from(entries, addrs, s, l, va, i) {
            Some(k) => walk_from(entries, addrs, k / 512, i, va, layer),
            None => None,
        },
    decreases i - l,
{
    lemma_index_bound(va, l);
    lemma_div_slot(s, spec_table_index(va, l) as int);
    if l < i {
        let slot = s * 512 + spec_table_index(va, l) as int;
        let e = entries[slot];
        if e.spec_valid() && e.spec_table_bit() {
            match table_at(addrs, (e.entry & ADDR_MASK) as int) {
                Some(t2) => {
                    lemma_walk_compose(entries, addrs, t2, l + 1, va, i, layer);
                },
                None => {},
            }
        }
    }
}

/// In a levelled store, a walk from a table of level `l` to level `i` ends
/// in a table of level `i`, at the index of `va` for that level.
proof fn lemma_walk_levels(entries: Seq<PageTableEntry>, addrs: Seq<PhysAddr>, levels: Seq<nat>, s: int, l: nat, va: u64, i: nat)
    requires
        tree_levels(entries, addrs, levels),
        levels.len() == addrs.len(),
        0 <= s < addrs.len(),
        levels[s] == l,
        l <= i <= 3,
    ensures
        walk_from(entries, addrs, s, l, va, i) is Some ==> {
            let k = walk_from(entries, addrs, s, l, va, i).unwrap();
            &&& 0 <= k / 512 < addrs.len()
            &&& levels[k / 512] == i
            &&& k % 512 == spec_table_index(va, i)
            &&& k == (k / 512) * 512 + spec_table_index(va, i)
        },
    decreases i - l,
{
    lemma_index_bound(va, l);
    lemma_div_slot(s, spec_table_index(va, l) as int);
    if l < i {
        let x = spec_table_index(va, l) as int;
        let e = slot_entry(entries, s, x);
        if e.spec_valid() && e.spec_table_bit() {
            match table_at(addrs, (e.entry & ADDR_MASK) as int) {
                Some(t2) => {
                    lemma_walk_levels(entries, addrs, levels, t2, l + 1, va, i);
                },
                None => {},
            }
        }
    }
}

/// A walk to level `i` reads only tables above level `i`: changing other
/// entries, or adding tables at fresh addresses, leaves it as it was.
proof fn lemma_walk_prefix(
    entries: Seq<PageTableEntry>,
    addrs: Seq<PhysAddr>,
    levels: Seq<nat>,
    entries2: Seq<PageTableEntry>,
    addrs2: Seq<PhysAddr>,
    s: int,
    l: nat,
    va: u64,
    i: nat,
)
    requires
        tree_levels(entries, addrs, levels),
        levels.len() == addrs.len(),
        unique_addrs(addrs2),
        addrs2.len() >= addrs.len(),
        addrs2.subrange(0, addrs.len() as int) == addrs,
        0 <= s < addrs.len(),
        levels[s] == l,
        l <= i <= 3,
        forall|t: int, x: int| 0 <= t < addrs.len() && 0 <= x < 512 && levels[t] < i
            ==> #[trigger] slot_entry(entries2, t, x) == slot_entry(entries, t, x),
    ensures
        walk_from(entries2, addrs2, s, l, va, i) == walk_from(entries, addrs, s, l, va, i),
    decreases i - l,
{
    lemma_index_bound(va, l);
    if l < i {
        let x = spec_table_index(va, l) as int;
        assert(slot_entry(entries2, s, x) == slot_entry(entries, s, x));
        let e = slot_entry(entries, s, x);
        if e.spec_valid() && e.spec_table_bit() {
            let t2 = table_at(addrs, (e.entry & ADDR_MASK) as int).unwrap();
            assert(addrs2[t2] == addrs[t2]);
            let c = choose|c: int| 0 <= c < addrs.len() && addrs[c].view() == (e.entry & ADDR_MASK) as int
                && forall|j: int| 0 <= j < c ==> addrs[j].view() != (e.entry & ADDR_MASK) as int;
            assert(t2 == c);
            lemma_table_at_index(addrs2, t2);
            lemma_walk_prefix(entries, addrs, levels, entries2, addrs2, t2, l + 1, va, i);
        }
    }
}

/// Clearing an entry only cuts walks short: a walk that still gets
/// somewhere gets where it got before.
proof fn lemma_walk_clear(entries: Seq<PageTableEntry>, addrs: Seq<PhysAddr>, k: int, t: int, l: nat, va: u64, layer: nat)
    requires
        0 <= k < entries.len(),
        entries.len() == 512 * addrs.len(),
        0 <= t < addrs.len(),
    ensures
        walk_from(entries.update(k, PageTableEntry { entry: 0 }), addrs, t, l, va, layer) is Some
            ==> walk_from(entries.update(k, PageTableEntry { entry: 0 }), addrs, t, l, va, layer)
                == walk_from(entries, addrs, t, l, va, layer),
    decreases layer - l,
{
    let e2 = entries.update(k, PageTableEntry { entry: 0 });
    lemma_index_bound(va, l);
    lemma_slot(t, spec_table_index(va, l) as int, addrs.len() as int);
    if l < layer {
        let slot = t * 512 + spec_table_index(va, l) as int;
        lemma_zero_entry_invalid();
        if slot != k {
            let e = entries[slot];
            if e.spec_valid() && e.spec_table_bit() {
                match table_at(addrs, (e.entry & ADDR_MASK) as int) {
                    Some(t2) => {
                        lemma_walk_clear(entries, addrs, k, t2, l + 1, va, layer);
                    },
                    None => {},
                }
            }
        }
    }
}

/// Virtual address at which frame `j` of region `reg` begins.
pub open spec fn frame_va(reg: VmRegion, j: int) -> int {
    reg.spec_start() + frames_bytes(reg.spec_frames().subrange(0, j))
}

proof fn lemma_walk_step(entries: Seq<PageTableEntry>, addrs: Seq<PhysAddr>, t: int, level: nat, va: u64, layer: nat, t2: int)
    requires
        level < layer,
        entries[t * 512 + spec_table_index(va, level) as int].spec_valid(),
        entries[t * 512 + spec_table_index(va, level) as int].spec_table_bit(),
        table_at(addrs, (entries[t * 512 + spec_table_index(va, level) as int].entry & ADDR_MASK) as int) == Some(t2),
    ensures
        walk_from(entries, addrs, t, level, va, layer) == walk_from(entries, addrs, t2, level + 1, va, layer),
{
}

proof fn lemma_slot(t: int, idx: int, n: int)
    requires
        0 <= t < n,
        0 <= idx < 512,
    ensures
        0 <= t * 512 + idx < 512 * n,
        (t * 512 + idx) % 512 == idx,
{
    assert(t * 512 + idx < 512 * n) by (nonlinear_arith)
        requires t < n, idx < 512;
    assert(0 <= t * 512) by (nonlinear_arith)
        requires 0 <= t;
    assert((t * 512 + idx) % 512 == idx) by (nonlinear_arith)
        requires 0 <= idx < 512, 0 <= t;
}

proof fn lemma_returnable_stays(a0: StackFrameAllocator, a1: StackFrameAllocator, frames: Seq<Frame>)
    requires
        frames_returnable(a0, frames),
        a1.cursor() == a0.cursor(),
        a1.limit() == a0.limit(),
    ensures
        frames_returnable(a1, frames),
{
    assert forall|i: int| 0 <= i < frames.len() implies match #[trigger] frames[i] {
        Frame::Data(d) => a1.frame_returnable(&d),
        _ => true,
    } by {
        match frames[i] {
            Frame::Data(d) => {
                assert(a0.frame_returnable(&d));
            },
            _ => {},
        }
    }
}

/// The data frames as frames, in order, with a 4 KiB guard frame after
/// them when `guard`.
fn wrap_frames(data: Vec<DataFrame>, guard: bool, alloc: &StackFrameAllocator) -> (r: Vec<Frame>)
    requires
        forall|i: int| 0 <= i < data@.len() ==> alloc.frame_returnable(&(#[trigger] data@[i])),
    ensures
        frames_returnable(*alloc, r@),
        r@.len() == data@.len() + if guard { 1int } else { 0int },
        forall|i: int| 0 <= i < data@.len() ==> #[trigger] r@[i] == Frame::Data(data@[i]),
        guard ==> r@.last() == Frame::Guard(GuardFrame { size: FrameSize::Size4Kb }),
{
    let mut data = data;
    let ghost d0 = data@;
    let mut rev: Vec<Frame> = Vec::new();
    while data.len() > 0
        invariant
            forall|i: int| 0 <= i < d0.len() ==> alloc.frame_returnable(&(#[trigger] d0[i])),
            data@ == d0.subrange(0, data@.len() as int),
            data@.len() <= d0.len(),
            rev@.len() == d0.len() - data@.len(),
            forall|i: int| 0 <= i < rev@.len() ==> #[trigger] rev@[i] == Frame::Data(d0[d0.len() - 1 - i]),
        decreases data@.len(),
    {
        let ghost before = data@;
        match data.pop() {
            Some(d) => {
                rev.push(Frame::Data(d));
                proof {
                    assert(data@ =~= d0.subrange(0, data@.len() as int));
                }
            },
            None => {},
        }
    }
    let mut frames: Vec<Frame> = Vec::new();
    while rev.len() > 0
        invariant
            rev@.len() <= d0.len(),
            frames@.len() == d0.len() - rev@.len(),
            forall|i: int| 0 <= i < rev@.len() ==> #[trigger] rev@[i] == Frame::Data(d0[d0.len() - 1 - i]),
            forall|i: int| 0 <= i < frames@.len() ==> #[trigger] frames@[i] == Frame::Data(d0[i]),
        decreases rev@.len(),
    {
        let ghost before = rev@;
        match rev.pop() {
            Some(f) => {
                proof {
                    assert(f == before[before.len() - 1]);
                }
                frames.push(f);
                proof {
                    assert forall|i: int| 0 <= i < rev@.len() implies #[trigger] rev@[i] == Frame::Data(d0[d0.len() - 1 - i]) by {
                        assert(rev@[i] == before[i]);
                    }
                }
            },
            None => {},
        }
    }
    if guard {
        frames.push(Frame::Guard(GuardFrame::new(FrameSize::Size4Kb)));
    }
    proof {
        assert forall|i: int| 0 <= i < frames@.len() implies match #[trigger] frames@[i] {
            Frame::Data(d) => alloc.frame_returnable(&d),
            _ => true,
        } by {
            if i < d0.len() {
                assert(frames@[i] == Frame::Data(d0[i]));
            }
        }
    }
    frames
}

proof fn lemma_frames_bytes_last(fs: Seq<Frame>)
    requires
        fs.len() > 0,
    ensures
        frames_bytes(fs) == frames_bytes(fs.drop_last()) + fs.last().spec_frame_size().spec_bytes(),
    decreases fs.len(),
{
    assert(frames_bytes(fs) == fs[0].spec_frame_size().spec_bytes() + frames_bytes(fs.drop_first()));
    if fs.len() > 1 {
        lemma_frames_bytes_last(fs.drop_first());
        assert(fs.drop_first().drop_last() =~= fs.drop_last().drop_first());
        assert(frames_bytes(fs.drop_last()) == fs.drop_last()[0].spec_frame_size().spec_bytes()
            + frames_bytes(fs.drop_last().drop_first()));
        assert(fs.drop_first().last() == fs.last());
        assert(fs.drop_last()[0] == fs[0]);
    } else {
        assert(fs.drop_first().len() == 0);
        assert(fs.drop_last().len() == 0);
    }
}

/// Data frames of the sizes of `plan` cover 4 KiB per page of the plan.
proof fn lemma_wrapped_bytes(w: Seq<Frame>, plan: Seq<FrameSize>, i: int)
    requires
        0 <= i <= plan.len() <= w.len(),
        forall|j: int| 0 <= j < plan.len() ==> (#[trigger] w[j]).spec_frame_size() == plan[j],
    ensures
        frames_bytes(w.subrange(0, i)) == 4096 * pages_of(plan.subrange(0, i)),
    decreases i,
{
    if i > 0 {
        lemma_wrapped_bytes(w, plan, i - 1);
        lemma_frames_bytes_last(w.subrange(0, i));
        assert(w.subrange(0, i).drop_last() =~= w.subrange(0, i - 1));
        assert(plan.subrange(0, i).drop_last() =~= plan.subrange(0, i - 1));
        assert(w.subrange(0, i).last() == w[i - 1]);
        assert(plan.subrange(0, i).last() == plan[i - 1]);
        let f = plan[i - 1];
        assert(f.spec_bytes() == 4096 * f.spec_pages());
    } else {
        assert(w.subrange(0, 0).len() == 0);
        assert(plan.subrange(0, 0).len() == 0);
    }
}

/// The starts of the data frames of class `k` among `frames`, in order.
pub open spec fn released(frames: Seq<Frame>, k: nat) -> Seq<PhysAddr>
    decreases frames.len(),
{
    if frames.len() == 0 {
        seq![]
    } else {
        let r = released(frames.drop_last(), k);
        match frames.last() {
            Frame::Data(d) => if d.spec_size().spec_class() == k {
                r.push(d.spec_start())
            } else {
                r
            },
            _ => r,
        }
    }
}

/// The starts of the data frames of class `k` of all the regions, region
/// by region.
pub open spec fn released_all(rs: Seq<VmRegion>, k: nat) -> Seq<PhysAddr>
    decreases rs.len(),
{
    if rs.len() == 0 {
        seq![]
    } else {
        released_all(rs.drop_last(), k) + released(rs.last().spec_frames(), k)
    }
}

/// Gives every data frame of `frames` back to `alloc`, once each and in
/// order: the free list of each class grows by the starts of the data
/// frames of that class.
pub fn release_frames(frames: &Vec<Frame>, alloc: &mut StackFrameAllocator)
    requires
        old(alloc).wf(),
        frames_returnable(*old(alloc), frames@),
    ensures
        final(alloc).wf(),
        final(alloc).cursor() == old(alloc).cursor(),
        final(alloc).limit() == old(alloc).limit(),
        forall|k: nat| k < 3 ==> #[trigger] final(alloc).free(k) == old(alloc).free(k) + released(frames@, k),
{
    let mut i: usize = 0;
    proof {
        assert forall|k: nat| k < 3 implies #[trigger] alloc.free(k) == old(alloc).free(k) + released(frames@.subrange(0, 0), k) by {
            assert(frames@.subrange(0, 0).len() == 0);
            assert(old(alloc).free(k) + Seq::<PhysAddr>::empty() =~= old(alloc).free(k));
        }
    }
    while i < frames.len()
        invariant
            i <= frames@.len(),
            alloc.wf(),
            alloc.cursor() == old(alloc).cursor(),
            alloc.limit() == old(alloc).limit(),
            frames_returnable(*alloc, frames@),
            forall|k: nat| k < 3 ==> #[trigger] alloc.free(k) == old(alloc).free(k) + released(frames@.subrange(0, i as int), k),
        decreases frames@.len() - i,
    {
        let ghost a0 = *alloc;
        let ghost pre = frames@.subrange(0, i as int);
        let ghost cur = frames@.subrange(0, i + 1);
        proof {
            assert(cur.drop_last() =~= pre);
            assert(cur.last() == frames@[i as int]);
        }
        match &frames[i] {
            Frame::Data(d) => {
                proof {
                    assert(alloc.frame_returnable(d));
                }
                alloc.deallocate_frame(d);
                proof {
                    lemma_returnable_stays(a0, *alloc, frames@);
                    assert forall|k: nat| k < 3 implies #[trigger] alloc.free(k) == old(alloc).free(k) + released(cur, k) by {
                        if k == d.spec_size().spec_class() {
                            assert(old(alloc).free(k) + released(pre, k).push(d.spec_start())
                                =~= (old(alloc).free(k) + released(pre, k)).push(d.spec_start()));
                        } else {
                            assert(alloc.free(k) == a0.free(k));
                        }
                    }
                }
            },
            _ => {
                proof {
                    assert forall|k: nat| k < 3 implies #[trigger] alloc.free(k) == old(alloc).free(k) + released(cur, k) by {
                        assert(alloc.free(k) == a0.free(k));
                    }
                }
            },
        }
        i = i + 1;
    }
    proof {
        assert(frames@.subrange(0, frames@.len() as int) =~= frames@);
    }
}

proof fn lemma_frames_bytes_prefix(frames: Seq<Frame>, k: int)
    requires
        0 <= k < frames.len(),
    ensures
        frames_bytes(frames.subrange(0, k + 1)) == frames_bytes(frames.subrange(0, k)) + frames[k].spec_frame_size().spec_bytes(),
        frames_bytes(frames.subrange(0, k + 1)) <= frames_bytes(frames),
    decreases k,
{
    if k == 0 {
        assert(frames.subrange(0, 1).drop_first() =~= frames.subrange(0, 0));
        lemma_frames_bytes_split(frames, 1);
    } else {
        let f2 = frames.drop_first();
        lemma_frames_bytes_prefix(f2, k - 1);
        assert(frames.subrange(0, k + 1).drop_first() =~= f2.subrange(0, k));
        assert(frames.subrange(0, k).drop_first() =~= f2.subrange(0, k - 1));
        assert(f2[k - 1] == frames[k]);
    }
}

proof fn lemma_frames_bytes_split(frames: Seq<Frame>, k: int)
    requires
        0 <= k <= frames.len(),
    ensures
        frames_bytes(frames.subrange(0, k)) <= frames_bytes(frames),
        frames_bytes(frames) >= 0,
    decreases frames.len(),
{
    if frames.len() > 0 {
        lemma_frames_bytes_split(frames.drop_first(), if k > 0 { k - 1 } else { 0 });
        if k > 0 {
            assert(frames.subrange(0, k).drop_first() =~= frames.drop_first().subrange(0, k - 1));
        } else {
            assert(frames.subrange(0, k).len() == 0);
        }
    }
}

proof fn lemma_find_region_prefix(rs: Seq<VmRegion>, i: int, va: int)
    requires
        0 <= i < rs.len(),
        find_region(rs.subrange(0, i), va) is None,
        rs[i].contains(va),
    ensures
        find_region(rs, va) == Some(i),
    decreases rs.len(),
{
    if rs.len() == i + 1 {
        assert(rs.drop_last() =~= rs.subrange(0, i));
    } else {
        assert(rs.drop_last().subrange(0, i) =~= rs.subrange(0, i));
        lemma_find_region_prefix(rs.drop_last(), i, va);
    }
}

/// The physical address of byte `o` of the frames, when a data frame
/// holds it.
fn translate(frames: &Vec<Frame>, o: u64) -> (r: Option<u64>)
    ensures
        r.is_some() == phys_of(frames@, o as int).is_some(),
        r.is_some() ==> r.unwrap() == phys_of(frames@, o as int).unwrap(),
{
    let mut k: usize = 0;
    let mut rem: u64 = o;
    proof {
        assert(frames@.skip(0) =~= frames@);
    }
    while k < frames.len()
        invariant
            k <= frames@.len(),
            phys_of(frames@, o as int) == phys_of(frames@.skip(k as int), rem as int),
        decreases frames@.len() - k,
    {
        let ghost tail = frames@.skip(k as int);
        assert(tail[0] == frames@[k as int]);
        let b = frames[k].frame_size().bytes();
        if rem < b {
            return match &frames[k] {
                Frame::Data(d) => {
                    let s = d.frame_addr().value();
                    Some(s + rem)
                },
                _ => None,
            };
        }
        assert(tail.drop_first() =~= frames@.skip(k + 1));
        rem = rem - b;
        k = k + 1;
    }
    None
}

/// After a mapping, the new region is the one found for each of its
/// addresses; an address that no region holds is found in none. With the
/// contract of `read_from_space`, every byte of the new region that a data
/// frame backs reads back from that frame, and an address outside all
/// regions reads as `UnExisted`.
pub proof fn lemma_region_containment(s: &VmSpace, x: int)
    requires
        s.wf(),
    ensures
        s.spec_regions().len() > 0 && s.spec_regions().last().contains(x)
            ==> find_region(s.spec_regions(), x) == Some(s.spec_regions().len() - 1),
        (forall|i: int| 0 <= i < s.spec_regions().len() ==> !(#[trigger] s.spec_regions()[i]).contains(x))
            ==> find_region(s.spec_regions(), x) is None,
{
    lemma_find_region_none(s.spec_regions(), x);
    let rs = s.spec_regions();
    if rs.len() > 0 && rs.last().contains(x) {
        let n = rs.len() - 1;
        assert forall|i: int| 0 <= i < n implies !(#[trigger] rs.drop_last()[i]).contains(x) by {
            assert(rs.drop_last()[i] == rs[i]);
            assert(rs[i].spec_start() + rs[i].spec_size() <= rs[n].spec_start()
                || rs[n].spec_start() + rs[n].spec_size() <= rs[i].spec_start());
        }
        lemma_find_region_none(rs.drop_last(), x);
    }
}

/// The region found for `va` is one of the regions, and holds `va`.
pub proof fn lemma_find_region_some(rs: Seq<VmRegion>, va: int)
    ensures
        find_region(rs, va) is Some ==> {
            let i = find_region(rs, va).unwrap();
            0 <= i < rs.len() && rs[i].contains(va)
        },
    decreases rs.len(),
{
    if rs.len() > 0 {
        lemma_find_region_some(rs.drop_last(), va);
        if find_region(rs.drop_last(), va) is Some {
            let i = find_region(rs.drop_last(), va).unwrap();
            assert(rs.drop_last()[i] == rs[i]);
        }
    }
}

proof fn lemma_find_region_none(rs: Seq<VmRegion>, x: int)
    ensures
        (forall|i: int| 0 <= i < rs.len() ==> !(#[trigger] rs[i]).contains(x)) ==> find_region(rs, x) is None,
    decreases rs.len(),
{
    if rs.len() > 0 {
        lemma_find_region_none(rs.drop_last(), x);
        if forall|i: int| 0 <= i < rs.len() ==> !(#[trigger] rs[i]).contains(x) {
            assert forall|i: int| 0 <= i < rs.drop_last().len() implies !(#[trigger] rs.drop_last()[i]).contains(x) by {
                assert(rs.drop_last()[i] == rs[i]);
            }
            assert(!rs[rs.len() - 1].contains(x));
        }
    }
}

} // verus!
