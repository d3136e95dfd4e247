//! A bump allocator of physical frames in three size classes, with one
//! free list per class that is consulted before the bump cursor.
use vstd::prelude::*;
use crate::addr::{PhysAddr, Addr, ADDR_MASK48};
use crate::frame::{DataFrame, FrameSize, FRAME};
use crate::page::{PageLevel, PageMode, VirtPageNum, PhysPageNum, ARM64, level_align};
use crate::solver::{MaperSolver, MapChunk, solution, lemma_solver_coverage, tiles};
use vstd::arithmetic::div_mod::{lemma_fundamental_div_mod, lemma_div_multiples_vanish};

verus! {

/// Why an allocation failed.
#[derive(Clone, Copy, PartialEq, Eq, Debug)]
pub enum FrameAllocError {
    /// The cursor is not aligned to the class asked for.
    AlignedError,
    /// Neither the free list nor the rest of the pool can give the frame.
    CapNotEnoughError,
    /// The class asked for is not supported.
    UnsupportError,
}

/// The size class of blocks at `level`.
pub open spec fn level_size(level: PageLevel) -> FrameSize {
    if level.0 == 0 {
        FrameSize::Size4Kb
    } else if level.0 == 1 {
        FrameSize::Size2Mb
    } else {
        FrameSize::Size1Gb
    }
}

/// `count` copies of `f`.
pub open spec fn repeat(f: FrameSize, count: nat) -> Seq<FrameSize> {
    Seq::new(count, |_i: int| f)
}

/// The frame sizes that map a chunk: one frame per block of its level.
pub open spec fn chunk_frames(c: MapChunk) -> Seq<FrameSize> {
    repeat(level_size(c.level), ((c.end.0 - c.start.0) / (level_align(c.level.0 as nat) as int)) as nat)
}

/// The frame sizes that map the chunks, in order.
pub open spec fn expand(cs: Seq<MapChunk>) -> Seq<FrameSize>
    decreases cs.len(),
{
    if cs.len() == 0 {
        seq![]
    } else {
        expand(cs.drop_last()) + chunk_frames(cs.last())
    }
}

/// The frame sizes that back `n` pages at virtual page `vn` when the
/// cursor stands at physical page `pn`, in ascending address order.
pub open spec fn frame_plan(vn: u64, pn: u64, n: u64) -> Seq<FrameSize> {
    expand(solution(vn as int, pn as int, n as int))
}

/// How many sizes of `s` are of class `k`.
pub open spec fn count_class(s: Seq<FrameSize>, k: nat) -> nat
    decreases s.len(),
{
    if s.len() == 0 {
        0
    } else {
        (if s[0].spec_class() == k { 1nat } else { 0nat }) + count_class(s.drop_first(), k)
    }
}

/// Bytes taken by the first `i` sizes of `s`.
pub open spec fn prefix_bytes(s: Seq<FrameSize>, i: int) -> int
    decreases i,
{
    if i <= 0 {
        0
    } else {
        prefix_bytes(s, i - 1) + s[i - 1].spec_bytes()
    }
}

/// Where the longest tail of `s[..i]` begins whose frames the free lists
/// can serve: every frame of the tail finds at least as many entries on
/// the free list of its class as the tail, from that frame on, asks of
/// that class (see `lemma_suffix_start_longest`).
pub open spec fn suffix_start(s: Seq<FrameSize>, lens: Seq<nat>, i: int) -> int
    decreases i,
{
    if i <= 0 {
        0
    } else {
        let k = s[i - 1].spec_class();
        if count_class(s.subrange(i - 1, s.len() as int), k) <= lens[k as int] {
            suffix_start(s, lens, i - 1)
        } else {
            i
        }
    }
}

/// The error of the first frame of `s[q..pos)` that the cursor cannot
/// give, laying the frames end to end from `cur`: capacity first (the
/// frame would pass `end`), then alignment (`cur` is not a multiple of its
/// size); none when every frame fits.
pub open spec fn bump_error(cur: int, end: int, s: Seq<FrameSize>, q: int, pos: int) -> Option<FrameAllocError>
    decreases pos - q,
{
    if q >= pos {
        None
    } else if cur + s[q].spec_bytes() > end {
        Some(FrameAllocError::CapNotEnoughError)
    } else if cur % (s[q].spec_bytes() as int) != 0 {
        Some(FrameAllocError::AlignedError)
    } else {
        bump_error(cur + s[q].spec_bytes(), end, s, q + 1, pos)
    }
}

/// A single-core bump allocator with a free list per size class.
#[derive(Debug)]
pub struct StackFrameAllocator {
    current: PhysAddr,
    end: PhysAddr,
    recycled_4k: Vec<PhysAddr>,
    recycled_2m: Vec<PhysAddr>,
    recycled_1g: Vec<PhysAddr>,
}

/// The size class of blocks at `level`.
fn size_of_level(level: PageLevel) -> (r: FrameSize)
    ensures
        r == level_size(level),
{
    if level.0 == 0 {
        FrameSize::Size4Kb
    } else if level.0 == 1 {
        FrameSize::Size2Mb
    } else {
        FrameSize::Size1Gb
    }
}

proof fn lemma_count_step(s: Seq<FrameSize>, i: int, k: nat)
    requires
        0 <= i < s.len(),
    ensures
        count_class(s.subrange(i, s.len() as int), k) == (if s[i].spec_class() == k { 1nat } else { 0nat })
            + count_class(s.subrange(i + 1, s.len() as int), k),
{
    assert(s.subrange(i, s.len() as int).drop_first() =~= s.subrange(i + 1, s.len() as int));
}

/// One frame size per block of each chunk, in order.
fn frame_sizes(cs: &Vec<MapChunk>) -> (r: Vec<FrameSize>)
    requires
        forall|k: int| 0 <= k < cs@.len() ==> (#[trigger] cs@[k]).level.0 <= 2 && cs@[k].start.0 <= cs@[k].end.0,
    ensures
        r@ == expand(cs@),
{
    let mut r: Vec<FrameSize> = Vec::new();
    let mut k: usize = 0;
    while k < cs.len()
        invariant
            k <= cs@.len(),
            forall|k: int| 0 <= k < cs@.len() ==> (#[trigger] cs@[k]).level.0 <= 2 && cs@[k].start.0 <= cs@[k].end.0,
            r@ == expand(cs@.subrange(0, k as int)),
        decreases cs@.len() - k,
    {
        let c = cs[k];
        let size = size_of_level(c.level);
        let align = ARM64::get_align_for_level(c.level).value();
        proof {
            reveal_with_fuel(level_align, 3);
        }
        let count = (c.end.0 - c.start.0) / align;
        let ghost base = r@;
        let mut t: u64 = 0;
        while t < count
            invariant
                t <= count,
                r@ == base + repeat(size, t as nat),
            decreases count - t,
        {
            r.push(size);
            t = t + 1;
            assert(r@ =~= base + repeat(size, t as nat));
        }
        proof {
            assert(cs@.subrange(0, k + 1).drop_last() =~= cs@.subrange(0, k as int));
            assert(cs@.subrange(0, k + 1).last() == c);
        }
        k = k + 1;
    }
    assert(cs@.subrange(0, cs@.len() as int) =~= cs@);
    r
}

impl StackFrameAllocator {
    /// The bump cursor: the first byte not handed out yet.
    pub closed spec fn cursor(&self) -> int {
        self.current.view() as int
    }

    /// The end of the pool.
    pub closed spec fn limit(&self) -> int {
        self.end.view() as int
    }

    /// The free list of class `k`; its last element is handed out first.
    pub closed spec fn free(&self, k: nat) -> Seq<PhysAddr> {
        if k == 0 {
            self.recycled_4k@
        } else if k == 1 {
            self.recycled_2m@
        } else {
            self.recycled_1g@
        }
    }

    /// A 4 KiB page can be had: from its free list, or at an aligned
    /// cursor with room before the end.
    pub open spec fn can_give_page(&self) -> bool {
        self.free(0).len() > 0 || (self.cursor() + 4096 <= self.limit() && self.cursor() % 4096 == 0)
    }

    /// `self` is `before` after one 4 KiB page was taken: the last of its
    /// free list if there is one, else the page at the cursor.
    pub open spec fn took_page(&self, before: &Self) -> bool {
        &&& self.limit() == before.limit()
        &&& self.other_lists_same(before, 0)
        &&& if before.free(0).len() > 0 {
            self.free(0) == before.free(0).drop_last() && self.cursor() == before.cursor()
        } else {
            self.free(0) == before.free(0) && self.cursor() == before.cursor() + 4096
        }
    }

    /// The lengths of the three free lists.
    pub open spec fn free_lens(&self) -> Seq<nat> {
        seq![self.free(0).len(), self.free(1).len(), self.free(2).len()]
    }

    /// Every address on the free list of a class is aligned to that class
    /// and lies outside the part of the pool not handed out yet.
    pub open spec fn wf(&self) -> bool {
        forall|k: nat, i: int| k < 3 && 0 <= i < self.free(k).len() ==> {
            let a = #[trigger] self.free(k)[i].view() as int;
            let size = FrameSize::spec_of_class(k).spec_bytes() as int;
            &&& a % size == 0
            &&& (a + size <= self.cursor() || a >= self.limit())
            &&& a + size <= ADDR_MASK48 + 1
        }
    }

    /// The free lists other than that of class `k` are as in `other`.
    pub open spec fn other_lists_same(&self, other: &Self, k: nat) -> bool {
        forall|j: nat| j < 3 && j != k ==> #[trigger] self.free(j) == other.free(j)
    }

    /// An allocator for the pool `[baddr, eaddr)` with empty free lists.
    pub fn create_allocator(baddr: PhysAddr, eaddr: PhysAddr) -> (r: StackFrameAllocator)
        ensures
            r.wf(),
            r.cursor() == baddr.view(),
            r.limit() == eaddr.view(),
            forall|k: nat| k < 3 ==> #[trigger] r.free(k).len() == 0,
    {
        StackFrameAllocator {
            current: baddr,
            end: eaddr,
            recycled_4k: Vec::new(),
            recycled_2m: Vec::new(),
            recycled_1g: Vec::new(),
        }
    }

    /// The bump cursor.
    pub fn current(&self) -> (r: PhysAddr)
        ensures
            r.view() == self.cursor(),
    {
        self.current
    }

    /// The end of the pool.
    pub fn end(&self) -> (r: PhysAddr)
        ensures
            r.view() == self.limit(),
    {
        self.end
    }

    /// Number of frames on the free list of `size`.
    pub fn free_count(&self, size: FrameSize) -> (r: usize)
        ensures
            r == self.free(size.spec_class()).len(),
    {
        match size {
            FrameSize::Size4Kb => self.recycled_4k.len(),
            FrameSize::Size2Mb => self.recycled_2m.len(),
            FrameSize::Size1Gb => self.recycled_1g.len(),
        }
    }

    fn pop_recycled(&mut self, size: FrameSize) -> (r: Option<PhysAddr>)
        ensures
            final(self).cursor() == old(self).cursor(),
            final(self).limit() == old(self).limit(),
            final(self).other_lists_same(old(self), size.spec_class()),
            old(self).free(size.spec_class()).len() == 0 ==> r.is_none()
                && final(self).free(size.spec_class()) == old(self).free(size.spec_class()),
            old(self).free(size.spec_class()).len() > 0 ==> r == Some(old(self).free(size.spec_class()).last())
                && final(self).free(size.spec_class()) == old(self).free(size.spec_class()).drop_last(),
    {
        match size {
            FrameSize::Size4Kb => self.recycled_4k.pop(),
            FrameSize::Size2Mb => self.recycled_2m.pop(),
            FrameSize::Size1Gb => self.recycled_1g.pop(),
        }
    }

    fn push_recycled(&mut self, size: FrameSize, pa: PhysAddr)
        ensures
            final(self).cursor() == old(self).cursor(),
            final(self).limit() == old(self).limit(),
            final(self).other_lists_same(old(self), size.spec_class()),
            final(self).free(size.spec_class()) == old(self).free(size.spec_class()).push(pa),
    {
        match size {
            FrameSize::Size4Kb => self.recycled_4k.push(pa),
            FrameSize::Size2Mb => self.recycled_2m.push(pa),
            FrameSize::Size1Gb => self.recycled_1g.push(pa),
        }
    }

    /// Takes a frame of class `size` at the cursor; not from a free list.
    fn new_single_frame(&mut self, size: FrameSize) -> (r: Result<DataFrame, FrameAllocError>)
        requires
            old(self).wf(),
        ensures
            final(self).wf(),
            final(self).limit() == old(self).limit(),
            forall|k: nat| k < 3 ==> #[trigger] final(self).free(k) == old(self).free(k),
            old(self).cursor() + size.spec_bytes() > old(self).limit() ==> r == Err::<DataFrame, _>(FrameAllocError::CapNotEnoughError)
                && final(self).cursor() == old(self).cursor(),
            old(self).cursor() + size.spec_bytes() <= old(self).limit() && old(self).cursor() % (size.spec_bytes() as int) != 0
                ==> r == Err::<DataFrame, _>(FrameAllocError::AlignedError) && final(self).cursor() == old(self).cursor(),
            old(self).cursor() + size.spec_bytes() <= old(self).limit() && old(self).cursor() % (size.spec_bytes() as int) == 0
                ==> r.is_ok() && r.unwrap().spec_start().view() == old(self).cursor()
                && r.unwrap().spec_size() == size
                && final(self).cursor() == old(self).cursor() + size.spec_bytes(),
    {
        let bytes = size.bytes();
        let cur = self.current.value();
        let end = self.end.value();
        if cur + bytes > end {
            return Err(FrameAllocError::CapNotEnoughError);
        }
        if cur % bytes != 0 {
            return Err(FrameAllocError::AlignedError);
        }
        let pa = self.current;
        self.current = self.current.plus(bytes);
        proof {
            assert forall|j: nat, i: int| j < 3 && 0 <= i < self.free(j).len() implies {
                let a = #[trigger] self.free(j)[i].view() as int;
                let sz = FrameSize::spec_of_class(j).spec_bytes() as int;
                &&& a % sz == 0
                &&& (a + sz <= self.cursor() || a >= self.limit())
                &&& a + sz <= ADDR_MASK48 + 1
            } by {
                assert(self.free(j) == old(self).free(j));
                assert(self.free(j)[i] == old(self).free(j)[i]);
            }
        }
        Ok(DataFrame::new(pa, size))
    }

    /// One frame of class `size`: the last one freed of that class if any,
    /// else one taken at the cursor.
    pub fn allocate_single_frame(&mut self, size: FrameSize) -> (r: Result<DataFrame, FrameAllocError>)
        requires
            old(self).wf(),
        ensures
            final(self).wf(),
            final(self).limit() == old(self).limit(),
            final(self).other_lists_same(old(self), size.spec_class()),
            r.is_ok() ==> r.unwrap().spec_size() == size
                && r.unwrap().spec_start().view() as int % (size.spec_bytes() as int) == 0,
            old(self).free(size.spec_class()).len() > 0 ==> r.is_ok()
                && r.unwrap().spec_start() == old(self).free(size.spec_class()).last()
                && final(self).free(size.spec_class()) == old(self).free(size.spec_class()).drop_last()
                && final(self).cursor() == old(self).cursor(),
            old(self).free(size.spec_class()).len() == 0 ==> {
                &&& final(self).free(size.spec_class()) == old(self).free(size.spec_class())
                &&& old(self).cursor() + size.spec_bytes() > old(self).limit() ==> r == Err::<DataFrame, _>(FrameAllocError::CapNotEnoughError)
                    && final(self).cursor() == old(self).cursor()
                &&& old(self).cursor() + size.spec_bytes() <= old(self).limit() && old(self).cursor() % (size.spec_bytes() as int) != 0
                    ==> r == Err::<DataFrame, _>(FrameAllocError::AlignedError) && final(self).cursor() == old(self).cursor()
                &&& old(self).cursor() + size.spec_bytes() <= old(self).limit() && old(self).cursor() % (size.spec_bytes() as int) == 0
                    ==> r.is_ok() && r.unwrap().spec_start().view() == old(self).cursor()
                    && final(self).cursor() == old(self).cursor() + size.spec_bytes()
            },
    {
        let ghost k = size.spec_class();
        match self.pop_recycled(size) {
            Some(pa) => {
                proof {
                    assert(old(self).free(k)[old(self).free(k).len() - 1] == pa);
                    assert forall|j: nat, i: int| j < 3 && 0 <= i < self.free(j).len() implies {
                        let a = #[trigger] self.free(j)[i].view() as int;
                        let sz = FrameSize::spec_of_class(j).spec_bytes() as int;
                        &&& a % sz == 0
                        &&& (a + sz <= self.cursor() || a >= self.limit())
                        &&& a + sz <= ADDR_MASK48 + 1
                    } by {
                        if j == k {
                            assert(self.free(j)[i] == old(self).free(j)[i]);
                        } else {
                            assert(self.free(j) == old(self).free(j));
                        }
                    }
                    FrameSize::lemma_class_round_trip(size);
                }
                Ok(DataFrame::new(pa, size))
            },
            None => {
                let r = self.new_single_frame(size);
                proof {
                    assert forall|j: nat| j < 3 && j != k implies #[trigger] self.free(j) == old(self).free(j) by {}
                }
                r
            },
        }
    }

    fn recycled_at(&self, size: FrameSize, idx: usize) -> (r: PhysAddr)
        requires
            idx < self.free(size.spec_class()).len(),
        ensures
            r == self.free(size.spec_class())[idx as int],
    {
        match size {
            FrameSize::Size4Kb => self.recycled_4k[idx],
            FrameSize::Size2Mb => self.recycled_2m[idx],
            FrameSize::Size1Gb => self.recycled_1g[idx],
        }
    }

    /// Drops the last `count` entries of the free list of `size`.
    fn drop_recycled(&mut self, size: FrameSize, count: usize)
        requires
            old(self).wf(),
            count <= old(self).free(size.spec_class()).len(),
        ensures
            final(self).wf(),
            final(self).cursor() == old(self).cursor(),
            final(self).limit() == old(self).limit(),
            final(self).other_lists_same(old(self), size.spec_class()),
            final(self).free(size.spec_class()) == old(self).free(size.spec_class()).subrange(
                0,
                old(self).free(size.spec_class()).len() - count,
            ),
    {
        let ghost k = size.spec_class();
        let mut t: usize = 0;
        while t < count
            invariant
                t <= count,
                count <= old(self).free(k).len(),
                k == size.spec_class(),
                self.wf(),
                self.cursor() == old(self).cursor(),
                self.limit() == old(self).limit(),
                self.other_lists_same(old(self), k),
                self.free(k) == old(self).free(k).subrange(0, old(self).free(k).len() - t),
            decreases count - t,
        {
            let ghost before = *self;
            let _ = self.pop_recycled(size);
            proof {
                assert(self.free(k) =~= old(self).free(k).subrange(0, old(self).free(k).len() - (t + 1)));
                assert forall|j: nat| j < 3 && j != k implies #[trigger] self.free(j) == old(self).free(j) by {
                    assert(before.free(j) == old(self).free(j));
                }
                assert forall|j: nat, i: int| j < 3 && 0 <= i < self.free(j).len() implies {
                    let a = #[trigger] self.free(j)[i].view() as int;
                    let sz = FrameSize::spec_of_class(j).spec_bytes() as int;
                    &&& a % sz == 0
                    &&& (a + sz <= self.cursor() || a >= self.limit())
                    &&& a + sz <= ADDR_MASK48 + 1
                } by {
                    assert(self.free(j)[i] == before.free(j)[i]);
                }
            }
            t = t + 1;
        }
    }

    /// Frames that back `size` bytes (rounded up to whole pages) at `va`.
    /// Their sizes are the chunks of the mapping solver for `va` and the
    /// cursor; the longest tail of them that the free lists can serve comes
    /// from the free lists, the rest from the cursor. When the cursor cannot
    /// give its part, nothing is taken and the first failure is returned.
    pub fn allocate_frames<P: Addr>(&mut self, va: &P, size: u64) -> (r: Result<Vec<DataFrame>, FrameAllocError>)
        requires
            old(self).wf(),
            size + 4095 <= u64::MAX,
        ensures
            final(self).wf(),
            final(self).limit() == old(self).limit(),
            pages_of(frame_plan((va.spec_addr() / 4096) as u64, (old(self).cursor() / 4096) as u64, ((size + 4095) / 4096) as u64))
                == (size + 4095) / 4096,
            ({
                let plan = frame_plan((va.spec_addr() / 4096) as u64, (old(self).cursor() / 4096) as u64, ((size + 4095) / 4096) as u64);
                let pos = suffix_start(plan, old(self).free_lens(), plan.len() as int);
                match bump_error(old(self).cursor(), old(self).limit(), plan, 0, pos) {
                    Some(e) => {
                        &&& r == Err::<Vec<DataFrame>, _>(e)
                        &&& final(self).cursor() == old(self).cursor()
                        &&& forall|k: nat| k < 3 ==> #[trigger] final(self).free(k) == old(self).free(k)
                    },
                    None => {
                        &&& r.is_ok()
                        &&& r.unwrap()@.len() == plan.len()
                        &&& forall|i: int| 0 <= i < plan.len() ==> (#[trigger] r.unwrap()@[i]).spec_size() == plan[i]
                        &&& forall|i: int| 0 <= i < plan.len() ==> (#[trigger] r.unwrap()@[i]).spec_start().view() as int
                            % (plan[i].spec_bytes() as int) == 0
                        &&& forall|i: int| 0 <= i < pos ==> (#[trigger] r.unwrap()@[i]).spec_start().view()
                            == old(self).cursor() + prefix_bytes(plan, i)
                        &&& forall|i: int| pos <= i < plan.len() ==> (#[trigger] r.unwrap()@[i]).spec_start()
                            == old(self).free(plan[i].spec_class())[old(self).free(plan[i].spec_class()).len()
                                - count_class(plan.subrange(i, plan.len() as int), plan[i].spec_class())]
                        &&& final(self).cursor() == old(self).cursor() + prefix_bytes(plan, pos)
                        &&& forall|k: nat| k < 3 ==> #[trigger] final(self).free(k) == old(self).free(k).subrange(
                            0,
                            old(self).free(k).len() - count_class(plan.subrange(pos, plan.len() as int), k),
                        )
                    },
                }
            }),
    {
        let n = (size + 4095) / 4096;
        let vn = va.num();
        let pn = self.current.num();
        proof {
            assert(vn + n <= u64::MAX);
            assert(pn + n <= u64::MAX);
            lemma_solver_coverage(vn, pn, n);
            lemma_plan_covers(vn, pn, n);
        }
        let solver = MaperSolver::solve(VirtPageNum(vn), PhysPageNum(pn), n, ARM64);
        let chunks = solver.chunks();
        let plan = frame_sizes(&chunks);
        assert(plan@ == frame_plan((va.spec_addr() / 4096) as u64, (old(self).cursor() / 4096) as u64, ((size + 4095) / 4096) as u64));
        let ghost lens = self.free_lens();
        let ghost len = plan@.len() as int;
        // the tail that the free lists serve
        let mut pos: usize = plan.len();
        let mut c0: usize = 0;
        let mut c1: usize = 0;
        let mut c2: usize = 0;
        while pos > 0
            invariant
                pos <= plan@.len(),
                len == plan@.len(),
                lens == old(self).free_lens(),
                old(self).wf(),
                *self == *old(self),
                c0 == count_class(plan@.subrange(pos as int, len), 0),
                c1 == count_class(plan@.subrange(pos as int, len), 1),
                c2 == count_class(plan@.subrange(pos as int, len), 2),
                c0 <= lens[0] && c1 <= lens[1] && c2 <= lens[2],
                suffix_start(plan@, lens, len) == suffix_start(plan@, lens, pos as int),
            ensures
                pos == 0 || count_class(plan@.subrange(pos - 1, len), plan@[pos - 1].spec_class())
                    > lens[plan@[pos - 1].spec_class() as int],
                *self == *old(self),
                c0 == count_class(plan@.subrange(pos as int, len), 0),
                c1 == count_class(plan@.subrange(pos as int, len), 1),
                c2 == count_class(plan@.subrange(pos as int, len), 2),
                c0 <= lens[0] && c1 <= lens[1] && c2 <= lens[2],
                suffix_start(plan@, lens, len) == suffix_start(plan@, lens, pos as int),
                pos <= plan@.len(),
                lens == old(self).free_lens(),
                len == plan@.len(),
            decreases pos,
        {
            let f = plan[pos - 1];
            let k = f.class();
            let have = self.free_count(f);
            proof {
                lemma_count_step(plan@, pos - 1, 0);
                lemma_count_step(plan@, pos - 1, 1);
                lemma_count_step(plan@, pos - 1, 2);
            }
            let ck = if k == 0 { c0 } else if k == 1 { c1 } else { c2 };
            if ck < have {
                if k == 0 {
                    c0 = c0 + 1;
                } else if k == 1 {
                    c1 = c1 + 1;
                } else {
                    c2 = c2 + 1;
                }
                pos = pos - 1;
            } else {
                break;
            }
        }
        proof {
            assert(suffix_start(plan@, lens, pos as int) == pos as int);
        }
        // the cursor must serve the head
        let end = self.end.value();
        let mut cur: u64 = self.current.value();
        let mut q: usize = 0;
        while q < pos
            invariant
                q <= pos <= plan@.len(),
                suffix_start(plan@, old(self).free_lens(), plan@.len() as int) == pos,
                plan@ == frame_plan((va.spec_addr() / 4096) as u64, (old(self).cursor() / 4096) as u64, ((size + 4095) / 4096) as u64),
                pages_of(plan@) == (size + 4095) / 4096,
                old(self).wf(),
                *self == *old(self),
                end == old(self).limit(),
                end <= ADDR_MASK48,
                cur <= ADDR_MASK48,
                cur == old(self).cursor() + prefix_bytes(plan@, q as int),
                bump_error(old(self).cursor(), end as int, plan@, 0, pos as int)
                    == bump_error(cur as int, end as int, plan@, q as int, pos as int),
            decreases pos - q,
        {
            let b = plan[q].bytes();
            if cur + b > end {
                assert(bump_error(cur as int, end as int, plan@, q as int, pos as int) == Some(FrameAllocError::CapNotEnoughError));
                return Err(FrameAllocError::CapNotEnoughError);
            }
            if cur % b != 0 {
                assert(bump_error(cur as int, end as int, plan@, q as int, pos as int) == Some(FrameAllocError::AlignedError));
                return Err(FrameAllocError::AlignedError);
            }
            cur = cur + b;
            q = q + 1;
        }
        let mut frames: Vec<DataFrame> = Vec::new();
        let mut q: usize = 0;
        while q < pos
            invariant
                q <= pos <= plan@.len(),
                suffix_start(plan@, old(self).free_lens(), plan@.len() as int) == pos,
                plan@ == frame_plan((va.spec_addr() / 4096) as u64, (old(self).cursor() / 4096) as u64, ((size + 4095) / 4096) as u64),
                pages_of(plan@) == (size + 4095) / 4096,
                bump_error(old(self).cursor(), old(self).limit(), plan@, 0, pos as int) is None,
                c0 == count_class(plan@.subrange(pos as int, len), 0),
                c1 == count_class(plan@.subrange(pos as int, len), 1),
                c2 == count_class(plan@.subrange(pos as int, len), 2),
                old(self).wf(),
                len == plan@.len(),
                self.wf(),
                self.limit() == old(self).limit(),
                forall|k: nat| k < 3 ==> #[trigger] self.free(k) == old(self).free(k),
                self.cursor() == old(self).cursor() + prefix_bytes(plan@, q as int),
                bump_error(self.cursor(), self.limit(), plan@, q as int, pos as int) is None,
                frames@.len() == q,
                forall|i: int| 0 <= i < q ==> (#[trigger] frames@[i]).spec_size() == plan@[i]
                    && frames@[i].spec_start().view() == old(self).cursor() + prefix_bytes(plan@, i)
                    && frames@[i].spec_start().view() as int % (plan@[i].spec_bytes() as int) == 0,
            decreases pos - q,
        {
            let ghost before = *self;
            match self.new_single_frame(plan[q]) {
                Ok(f) => {
                    frames.push(f);
                },
                Err(e) => {
                    return Err(e);
                },
            }
            q = q + 1;
        }
        // the tail, read in order from the free lists, then dropped from them
        let mut r0: usize = c0;
        let mut r1: usize = c1;
        let mut r2: usize = c2;
        let mut i: usize = pos;
        while i < plan.len()
            invariant
                pos <= i <= plan@.len(),
                suffix_start(plan@, old(self).free_lens(), plan@.len() as int) == pos,
                plan@ == frame_plan((va.spec_addr() / 4096) as u64, (old(self).cursor() / 4096) as u64, ((size + 4095) / 4096) as u64),
                pages_of(plan@) == (size + 4095) / 4096,
                bump_error(old(self).cursor(), old(self).limit(), plan@, 0, pos as int) is None,
                self.cursor() == old(self).cursor() + prefix_bytes(plan@, pos as int),
                self.limit() == old(self).limit(),
                c0 == count_class(plan@.subrange(pos as int, len), 0),
                c1 == count_class(plan@.subrange(pos as int, len), 1),
                c2 == count_class(plan@.subrange(pos as int, len), 2),
                old(self).wf(),
                len == plan@.len(),
                lens == old(self).free_lens(),
                self.wf(),
                forall|k: nat| k < 3 ==> #[trigger] self.free(k) == old(self).free(k),
                r0 == count_class(plan@.subrange(i as int, len), 0),
                r1 == count_class(plan@.subrange(i as int, len), 1),
                r2 == count_class(plan@.subrange(i as int, len), 2),
                c0 <= lens[0] && c1 <= lens[1] && c2 <= lens[2],
                r0 <= c0 && r1 <= c1 && r2 <= c2,
                frames@.len() == i,
                forall|i: int| 0 <= i < pos ==> (#[trigger] frames@[i]).spec_size() == plan@[i]
                    && frames@[i].spec_start().view() == old(self).cursor() + prefix_bytes(plan@, i)
                    && frames@[i].spec_start().view() as int % (plan@[i].spec_bytes() as int) == 0,
                forall|t: int| pos <= t < i ==> (#[trigger] frames@[t]).spec_size() == plan@[t]
                    && 1 <= count_class(plan@.subrange(t, len), plan@[t].spec_class())
                        <= old(self).free(plan@[t].spec_class()).len()
                    && frames@[t].spec_start() == old(self).free(plan@[t].spec_class())[old(self).free(plan@[t].spec_class()).len()
                        - count_class(plan@.subrange(t, len), plan@[t].spec_class())],
            decreases len - i,
        {
            let f = plan[i];
            let k = f.class();
            proof {
                lemma_count_step(plan@, i as int, 0);
                lemma_count_step(plan@, i as int, 1);
                lemma_count_step(plan@, i as int, 2);
            }
            let have = self.free_count(f);
            proof {
                FrameSize::lemma_class_round_trip(f);
            }
            let rk = if k == 0 { r0 } else if k == 1 { r1 } else { r2 };
            let pa = self.recycled_at(f, have - rk);
            frames.push(DataFrame::new(pa, f));
            if k == 0 {
                r0 = r0 - 1;
            } else if k == 1 {
                r1 = r1 - 1;
            } else {
                r2 = r2 - 1;
            }
            i = i + 1;
        }
        let ghost mid = *self;
        self.drop_recycled(FrameSize::Size4Kb, c0);
        self.drop_recycled(FrameSize::Size2Mb, c1);
        self.drop_recycled(FrameSize::Size1Gb, c2);
        proof {
            assert forall|k: nat| k < 3 implies #[trigger] self.free(k) == old(self).free(k).subrange(
                0,
                old(self).free(k).len() - count_class(plan@.subrange(pos as int, len), k),
            ) by {
                assert(mid.free(k) == old(self).free(k));
            }
            assert forall|t: int| pos <= t < len implies (#[trigger] frames@[t]).spec_start().view() as int
                % (plan@[t].spec_bytes() as int) == 0 by {
                assert(frames@[t].spec_size() == plan@[t]);
                let k = plan@[t].spec_class();
                FrameSize::lemma_class_round_trip(plan@[t]);
                lemma_count_step(plan@, t, k);
                let idx = old(self).free(k).len() - count_class(plan@.subrange(t, len), k);
                assert(0 <= idx < old(self).free(k).len());
                assert(old(self).free(k)[idx].view() == frames@[t].spec_start().view());
            }
        }
        Ok(frames)
    }

    /// Puts the frame back on the free list of its class; it is not
    /// checked again, as it was valid when it was handed out.
    pub fn deallocate_frame(&mut self, df: &DataFrame)
        requires
            old(self).wf(),
            old(self).frame_returnable(df),
        ensures
            final(self).wf(),
            final(self).cursor() == old(self).cursor(),
            final(self).limit() == old(self).limit(),
            final(self).other_lists_same(old(self), df.spec_size().spec_class()),
            final(self).free(df.spec_size().spec_class()) == old(self).free(df.spec_size().spec_class()).push(df.spec_start()),
    {
        let size = df.frame_size();
        self.push_recycled(size, df.frame_addr());
        proof {
            let k = size.spec_class();
            FrameSize::lemma_class_round_trip(size);
            assert forall|j: nat, i: int| j < 3 && 0 <= i < self.free(j).len() implies {
                let a = #[trigger] self.free(j)[i].view() as int;
                let sz = FrameSize::spec_of_class(j).spec_bytes() as int;
                &&& a % sz == 0
                &&& (a + sz <= self.cursor() || a >= self.limit())
                &&& a + sz <= ADDR_MASK48 + 1
            } by {
                if j == k {
                    if i < old(self).free(j).len() {
                        assert(self.free(j)[i] == old(self).free(j)[i]);
                    }
                } else {
                    assert(self.free(j) == old(self).free(j));
                }
            }
        }
    }

    /// A frame that this allocator handed out: aligned to its class and
    /// outside the part of the pool not handed out yet.
    pub open spec fn frame_returnable(&self, df: &DataFrame) -> bool {
        let a = df.spec_start().view() as int;
        let size = df.spec_size().spec_bytes() as int;
        &&& a % size == 0
        &&& (a + size <= self.cursor() || a >= self.limit())
        &&& a + size <= ADDR_MASK48 + 1
    }

    /// One 4 KiB page for a page table, as a bare address.
    pub fn unsafe_alloc_page(&mut self) -> (r: Result<PhysAddr, FrameAllocError>)
        requires
            old(self).wf(),
        ensures
            final(self).wf(),
            final(self).limit() == old(self).limit(),
            final(self).other_lists_same(old(self), 0),
            r.is_ok() ==> r.unwrap().view() % 4096 == 0,
            old(self).free(0).len() > 0 ==> r == Ok::<_, FrameAllocError>(old(self).free(0).last())
                && final(self).free(0) == old(self).free(0).drop_last() && final(self).cursor() == old(self).cursor(),
            old(self).free(0).len() == 0 ==> {
                &&& final(self).free(0) == old(self).free(0)
                &&& old(self).cursor() + 4096 > old(self).limit() ==> r == Err::<PhysAddr, _>(FrameAllocError::CapNotEnoughError)
                    && final(self).cursor() == old(self).cursor()
                &&& old(self).cursor() + 4096 <= old(self).limit() && old(self).cursor() % 4096 != 0
                    ==> r == Err::<PhysAddr, _>(FrameAllocError::AlignedError) && final(self).cursor() == old(self).cursor()
                &&& old(self).cursor() + 4096 <= old(self).limit() && old(self).cursor() % 4096 == 0
                    ==> r.is_ok() && r.unwrap().view() == old(self).cursor() && final(self).cursor() == old(self).cursor() + 4096
            },
    {
        match self.allocate_single_frame(FrameSize::Size4Kb) {
            Ok(f) => Ok(f.frame_addr()),
            Err(e) => Err(e),
        }
    }

    /// Puts a 4 KiB page back on its free list.
    pub fn unsafe_deallo(&mut self, pa: PhysAddr)
        requires
            old(self).wf(),
            pa.view() % 4096 == 0,
            pa.view() + 4096 <= old(self).cursor() || pa.view() >= old(self).limit(),
            pa.view() + 4096 <= ADDR_MASK48 + 1,
        ensures
            final(self).wf(),
            final(self).cursor() == old(self).cursor(),
            final(self).limit() == old(self).limit(),
            final(self).other_lists_same(old(self), 0),
            final(self).free(0) == old(self).free(0).push(pa),
    {
        let df = DataFrame::new(pa, FrameSize::Size4Kb);
        self.deallocate_frame(&df);
    }
}

pub proof fn lemma_suffix_ok(s: Seq<FrameSize>, lens: Seq<nat>, j: int)
    requires
        0 <= j <= s.len(),
    ensures
        forall|i: int| suffix_start(s, lens, j) <= i < j ==>
            count_class(s.subrange(i, s.len() as int), (#[trigger] s[i]).spec_class()) <= lens[s[i].spec_class() as int],
        0 <= suffix_start(s, lens, j) <= j,
    decreases j,
{
    if j > 0 {
        lemma_suffix_ok(s, lens, j - 1);
    }
}

/// The tail that the free lists serve is the longest one: every frame in
/// it fits, and the frame just before it, if any, does not.
pub proof fn lemma_suffix_start_longest(s: Seq<FrameSize>, lens: Seq<nat>, j: int)
    requires
        0 <= j <= s.len(),
    ensures
        forall|i: int| suffix_start(s, lens, j) <= i < j ==>
            count_class(s.subrange(i, s.len() as int), (#[trigger] s[i]).spec_class()) <= lens[s[i].spec_class() as int],
        suffix_start(s, lens, j) == 0 || {
            let p = suffix_start(s, lens, j) - 1;
            count_class(s.subrange(p, s.len() as int), s[p].spec_class()) > lens[s[p].spec_class() as int]
        },
    decreases j,
{
    lemma_suffix_ok(s, lens, j);
    if j > 0 {
        lemma_suffix_start_longest(s, lens, j - 1);
    }
}

/// A frame of the tail that the free lists serve finds its free list
/// long enough.
pub proof fn lemma_count_bounds(s: Seq<FrameSize>, i: int, pos: int, lens: Seq<nat>, k: nat)
    requires
        pos == suffix_start(s, lens, s.len() as int),
        pos <= i < s.len(),
        k == s[i].spec_class(),
    ensures
        1 <= count_class(s.subrange(i, s.len() as int), k) <= lens[k as int],
{
    lemma_suffix_ok(s, lens, s.len() as int);
    lemma_count_step(s, i, k);
}

/// Pages covered by frames of the given sizes.
pub open spec fn pages_of(s: Seq<FrameSize>) -> int
    decreases s.len(),
{
    if s.len() == 0 {
        0
    } else {
        pages_of(s.drop_last()) + s.last().spec_pages()
    }
}

/// Pages spanned by the chunks.
pub open spec fn span_sum(cs: Seq<MapChunk>) -> int
    decreases cs.len(),
{
    if cs.len() == 0 {
        0
    } else {
        span_sum(cs.drop_last()) + (cs.last().end.0 - cs.last().start.0)
    }
}

proof fn lemma_pages_concat(a: Seq<FrameSize>, b: Seq<FrameSize>)
    ensures
        pages_of(a + b) == pages_of(a) + pages_of(b),
    decreases b.len(),
{
    if b.len() > 0 {
        assert((a + b).drop_last() =~= a + b.drop_last());
        assert((a + b).last() == b.last());
        lemma_pages_concat(a, b.drop_last());
    } else {
        assert(a + b =~= a);
    }
}

proof fn lemma_pages_repeat(f: FrameSize, m: nat)
    ensures
        pages_of(repeat(f, m)) == m * f.spec_pages(),
    decreases m,
{
    if m > 0 {
        assert(repeat(f, m).drop_last() =~= repeat(f, (m - 1) as nat));
        lemma_pages_repeat(f, (m - 1) as nat);
        assert((m - 1) * f.spec_pages() + f.spec_pages() == m * f.spec_pages()) by (nonlinear_arith);
    }
}

proof fn lemma_expand_pages(cs: Seq<MapChunk>)
    requires
        forall|k: int| 0 <= k < cs.len() ==> {
            let c = #[trigger] cs[k];
            &&& c.level.0 <= 2
            &&& c.start.0 <= c.end.0
            &&& c.start.0 as int % (level_align(c.level.0 as nat) as int) == 0
            &&& c.end.0 as int % (level_align(c.level.0 as nat) as int) == 0
        },
    ensures
        pages_of(expand(cs)) == span_sum(cs),
    decreases cs.len(),
{
    if cs.len() > 0 {
        let c = cs.last();
        assert(c == cs[cs.len() - 1]);
        assert forall|k: int| 0 <= k < cs.drop_last().len() implies {
            let d = #[trigger] cs.drop_last()[k];
            &&& d.level.0 <= 2
            &&& d.start.0 <= d.end.0
            &&& d.start.0 as int % (level_align(d.level.0 as nat) as int) == 0
            &&& d.end.0 as int % (level_align(d.level.0 as nat) as int) == 0
        } by {
            assert(cs.drop_last()[k] == cs[k]);
        }
        lemma_expand_pages(cs.drop_last());
        lemma_pages_concat(expand(cs.drop_last()), chunk_frames(c));
        reveal_with_fuel(level_align, 3);
        let a = level_align(c.level.0 as nat) as int;
        let (s0, e0) = (c.start.0 as int, c.end.0 as int);
        lemma_fundamental_div_mod(s0, a);
        lemma_fundamental_div_mod(e0, a);
        let q = e0 / a - s0 / a;
        assert(e0 - s0 == a * q) by (nonlinear_arith)
            requires s0 == a * (s0 / a), e0 == a * (e0 / a), q == e0 / a - s0 / a;
        lemma_div_multiples_vanish(q, a);
        assert(q >= 0) by (nonlinear_arith)
            requires e0 - s0 == a * q, e0 >= s0, a > 0;
        let size = level_size(c.level);
        lemma_pages_repeat(size, q as nat);
        assert(size.spec_pages() == a);
        assert(q * a == e0 - s0) by (nonlinear_arith)
            requires e0 - s0 == a * q;
    }
}

proof fn lemma_tiles_span(cs: Seq<MapChunk>, lo: int, hi: int)
    requires
        tiles(cs, lo, hi),
    ensures
        span_sum(cs) == hi - lo,
    decreases cs.len(),
{
    if cs.len() > 1 {
        let d = cs.drop_last();
        assert(cs[cs.len() - 2].end.0 == cs[cs.len() - 1].start.0);
        assert forall|k: int| 0 <= k < d.len() - 1 implies #[trigger] d[k].end.0 == d[k + 1].start.0 by {
            assert(cs[k].end.0 == cs[k + 1].start.0);
        }
        assert forall|k: int| 0 <= k < d.len() implies #[trigger] d[k].start.0 < d[k].end.0 by {
            assert(cs[k].start.0 < cs[k].end.0);
        }
        assert(d[0] == cs[0]);
        assert(d.last() == cs[cs.len() - 2]);
        assert(tiles(d, lo, cs.last().start.0 as int));
        lemma_tiles_span(d, lo, cs.last().start.0 as int);
        assert(span_sum(cs) == span_sum(d) + (cs.last().end.0 - cs.last().start.0));
    } else if cs.len() == 1 {
        assert(cs.drop_last() =~= Seq::<MapChunk>::empty());
        assert(cs.last() == cs[0]);
        assert(span_sum(cs.drop_last()) == 0);
        assert(span_sum(cs) == cs.last().end.0 - cs.last().start.0);
    }
}

/// The frame sizes for `n` pages cover exactly `n` pages: mapped end to
/// end, the frames of a range cover the range and nothing more.
pub proof fn lemma_plan_covers(vn: u64, pn: u64, n: u64)
    requires
        vn + n <= u64::MAX,
        pn + n <= u64::MAX,
    ensures
        pages_of(frame_plan(vn, pn, n)) == n,
{
    lemma_solver_coverage(vn, pn, n);
    let cs = solution(vn as int, pn as int, n as int);
    lemma_expand_pages(cs);
    lemma_tiles_span(cs, vn as int, vn + n);
}

/// Bytes of a prefix never exceed those of a longer prefix.
pub proof fn lemma_prefix_bytes_mono(s: Seq<FrameSize>, i: int, j: int)
    requires
        0 <= i <= j <= s.len(),
    ensures
        prefix_bytes(s, i) <= prefix_bytes(s, j),
    decreases j - i,
{
    if i < j {
        lemma_prefix_bytes_mono(s, i, j - 1);
    }
}

/// A frame given back to the allocator is the next one handed out for its
/// class, before the cursor moves: after `deallocate_frame(df)` the free
/// list of the class of `df` ends with the start of `df`.
pub proof fn lemma_free_then_reuse(before: StackFrameAllocator, after: StackFrameAllocator, df: DataFrame)
    requires
        before.wf(),
        before.frame_returnable(&df),
        after.free(df.spec_size().spec_class()) == before.free(df.spec_size().spec_class()).push(df.spec_start()),
    ensures
        after.free(df.spec_size().spec_class()).len() > 0,
        after.free(df.spec_size().spec_class()).last() == df.spec_start(),
{
}

} // verus!
