//! The huge-page mapping solver: splits a virtual-to-physical page range
//! into chunks, each mapped with the largest page size that the alignment
//! of both sides allows.
use vstd::prelude::*;
use vstd::arithmetic::div_mod::{lemma_fundamental_div_mod, lemma_mod_multiples_basic, lemma_mod_bound};
use crate::page::{PageLevel, PageMode, VirtPageNum, PhysPageNum, ARM64, level_align};

verus! {

/// A virtual page number together with the physical page number it maps to.
#[derive(Clone, Copy, PartialEq, Eq, Debug)]
pub struct Pair(pub u64, pub u64);

/// Pages `[start.0, end.0)` mapped onto `[start.1, end.1)` with blocks of
/// `level`, stepping by that level's alignment.
#[derive(Clone, Copy, PartialEq, Eq, Debug)]
pub struct MapChunk {
    pub level: PageLevel,
    pub start: Pair,
    pub end: Pair,
}

/// `x` rounded up to a multiple of `a`.
pub open spec fn round_up(x: int, a: int) -> int {
    (x + a - 1) - (x + a - 1) % a
}

/// `x` rounded down to a multiple of `a`.
pub open spec fn round_down(x: int, a: int) -> int {
    x - x % a
}

/// First page of the part of `[v, v + n)` that blocks of `level` can map.
pub open spec fn inner_lo(v: int, n: int, level: nat) -> int {
    round_up(v, level_align(level) as int)
}

/// End of the part of `[v, v + n)` that blocks of `level` can map.
pub open spec fn inner_hi(v: int, n: int, level: nat) -> int {
    round_down(v + n, level_align(level) as int)
}

/// The chunk that maps virtual pages `[lo, hi)` at `level`, with the
/// physical side shifted as `v` is to `p`.
pub open spec fn chunk_of(level: nat, v: int, p: int, lo: int, hi: int) -> MapChunk {
    MapChunk {
        level: PageLevel(level as u8),
        start: Pair(lo as u64, (p + lo - v) as u64),
        end: Pair(hi as u64, (p + hi - v) as u64),
    }
}

/// The chunks, in ascending order, after the levels from `i` down to `j`
/// have been used: the middle at `i`, and at each finer level the newly
/// exposed fringe on both sides.
pub open spec fn solve_seq(v: int, p: int, n: int, i: nat, j: nat) -> Seq<MapChunk>
    decreases i - j,
{
    if j >= i {
        if inner_lo(v, n, i) < inner_hi(v, n, i) {
            seq![chunk_of(i, v, p, inner_lo(v, n, i), inner_hi(v, n, i))]
        } else {
            seq![]
        }
    } else {
        let prev = solve_seq(v, p, n, i, j + 1);
        let left = if inner_lo(v, n, j) < inner_lo(v, n, j + 1) {
            seq![chunk_of(j, v, p, inner_lo(v, n, j), inner_lo(v, n, j + 1))]
        } else {
            seq![]
        };
        let right = if inner_hi(v, n, j + 1) < inner_hi(v, n, j) {
            seq![chunk_of(j, v, p, inner_hi(v, n, j + 1), inner_hi(v, n, j))]
        } else {
            seq![]
        };
        left + prev + right
    }
}

/// Blocks of `level` can map the range: both sides agree modulo the
/// level's alignment and the range holds at least one block.
pub open spec fn feasible(v: int, p: int, n: int, level: nat) -> bool {
    v % (level_align(level) as int) == p % (level_align(level) as int) && n >= level_align(level)
}

/// The coarsest level that can map the range, if any.
pub open spec fn best_level(v: int, p: int, n: int) -> Option<nat> {
    if feasible(v, p, n, 2) {
        Some(2)
    } else if feasible(v, p, n, 1) {
        Some(1)
    } else if feasible(v, p, n, 0) {
        Some(0)
    } else {
        None
    }
}

/// The chunks that map `n` pages from `v` onto `p`.
pub open spec fn solution(v: int, p: int, n: int) -> Seq<MapChunk> {
    match best_level(v, p, n) {
        Some(i) => solve_seq(v, p, n, i, 0),
        None => seq![],
    }
}

/// The chunks lie side by side, none empty, from `lo` to `hi`.
pub open spec fn tiles(cs: Seq<MapChunk>, lo: int, hi: int) -> bool {
    &&& (cs.len() == 0 ==> lo == hi)
    &&& (cs.len() > 0 ==> cs[0].start.0 == lo && cs.last().end.0 == hi)
    &&& forall|k: int| 0 <= k < cs.len() - 1 ==> #[trigger] cs[k].end.0 == cs[k + 1].start.0
    &&& forall|k: int| 0 <= k < cs.len() ==> #[trigger] cs[k].start.0 < cs[k].end.0
}

/// Virtual page `x` lies in chunk `c`.
pub open spec fn in_chunk(c: MapChunk, x: int) -> bool {
    c.start.0 <= x < c.end.0
}

/// Virtual page `x` lies in one of the chunks.
pub open spec fn covered(cs: Seq<MapChunk>, x: int) -> bool {
    exists|k: int| 0 <= k < cs.len() && in_chunk(#[trigger] cs[k], x)
}

proof fn lemma_levels()
    ensures
        level_align(0) == 1,
        level_align(1) == 512,
        level_align(2) == 0x4_0000,
{
    reveal_with_fuel(level_align, 3);
}

/// Rounding gives multiples of `a` within `a` of the input; a multiple of
/// `512 * a` is a multiple of `a`.
proof fn lemma_round(x: int, a: int)
    requires
        a > 0,
    ensures
        round_up(x, a) % a == 0,
        x <= round_up(x, a) < x + a,
        round_down(x, a) % a == 0,
        x - a < round_down(x, a) <= x,
        round_up(x, 512 * a) % a == 0,
        round_down(x, 512 * a) % a == 0,
{
    let t = x + a - 1;
    lemma_fundamental_div_mod(t, a);
    lemma_fundamental_div_mod(x, a);
    lemma_mod_bound(t, a);
    lemma_mod_bound(x, a);
    assert(round_up(x, a) == (t / a) * a) by (nonlinear_arith)
        requires round_up(x, a) == t - t % a, t == a * (t / a) + t % a;
    lemma_mod_multiples_basic(t / a, a);
    assert(round_down(x, a) == (x / a) * a) by (nonlinear_arith)
        requires round_down(x, a) == x - x % a, x == a * (x / a) + x % a;
    lemma_mod_multiples_basic(x / a, a);
    let b = 512 * a;
    let tb = x + b - 1;
    lemma_fundamental_div_mod(tb, b);
    lemma_fundamental_div_mod(x, b);
    assert(round_up(x, b) == ((tb / b) * 512) * a) by (nonlinear_arith)
        requires round_up(x, b) == tb - tb % b, tb == b * (tb / b) + tb % b, b == 512 * a;
    lemma_mod_multiples_basic((tb / b) * 512, a);
    assert(round_down(x, b) == ((x / b) * 512) * a) by (nonlinear_arith)
        requires round_down(x, b) == x - x % b, x == b * (x / b) + x % b, b == 512 * a;
    lemma_mod_multiples_basic((x / b) * 512, a);
}

/// Two multiples of `a` that differ differ by at least `a`.
pub proof fn lemma_multiples_apart(m1: int, m2: int, a: int)
    requires
        a > 0,
        m1 % a == 0,
        m2 % a == 0,
        m1 < m2,
    ensures
        m1 + a <= m2,
{
    lemma_fundamental_div_mod(m1, a);
    lemma_fundamental_div_mod(m2, a);
    assert(m1 + a <= m2) by (nonlinear_arith)
        requires m1 == a * (m1 / a), m2 == a * (m2 / a), m1 < m2, a > 0;
}

/// Fringe bounds move outwards, level by level, as the blocks get finer.
proof fn lemma_bounds(v: int, n: int, i: nat, j: nat)
    requires
        v >= 0,
        i <= 2,
        j <= i,
        n >= level_align(i),
    ensures
        v <= inner_lo(v, n, j) <= inner_lo(v, n, i) <= inner_hi(v, n, i) <= inner_hi(v, n, j) <= v + n,
        j == 0 ==> inner_lo(v, n, j) == v && inner_hi(v, n, j) == v + n,
        inner_lo(v, n, j) < v + level_align(j),
        inner_hi(v, n, j) > v + n - level_align(j),
{
    lemma_levels();
    lemma_round(v, 1);
    lemma_round(v + n, 1);
    lemma_round(v, 512);
    lemma_round(v + n, 512);
    lemma_round(v, 0x4_0000);
    lemma_round(v + n, 0x4_0000);
    let ai = level_align(i) as int;
    let aj = level_align(j) as int;
    let (lo_i, hi_i, lo_j, hi_j) = (inner_lo(v, n, i), inner_hi(v, n, i), inner_lo(v, n, j), inner_hi(v, n, j));
    // the coarse bounds are multiples of the fine alignment
    assert(lo_i % aj == 0 && hi_i % aj == 0) by {
        if j < i {
            if i == 2 && j == 0 {
                assert(lo_i % 1 == 0 && hi_i % 1 == 0);
            }
        }
    }
    if lo_i < lo_j {
        lemma_multiples_apart(lo_i, lo_j, aj);
    }
    if hi_j < hi_i {
        lemma_multiples_apart(hi_j, hi_i, aj);
    }
    if hi_i < lo_i {
        lemma_multiples_apart(hi_i, lo_i, ai);
    }
}

proof fn lemma_solve_seq_tiles(v: int, p: int, n: int, i: nat, j: nat)
    requires
        v >= 0,
        p >= 0,
        v + n <= u64::MAX,
        p + n <= u64::MAX,
        i <= 2,
        j <= i,
        n >= level_align(i),
    ensures
        tiles(solve_seq(v, p, n, i, j), inner_lo(v, n, j), inner_hi(v, n, j)),
        forall|k: int| 0 <= k < solve_seq(v, p, n, i, j).len() ==> {
            let c = #[trigger] solve_seq(v, p, n, i, j)[k];
            &&& c.level.0 <= i
            &&& c.start.1 == p + c.start.0 - v
            &&& c.end.1 == p + c.end.0 - v
            &&& c.start.0 as int % (level_align(c.level.0 as nat) as int) == 0
            &&& c.end.0 as int % (level_align(c.level.0 as nat) as int) == 0
        },
    decreases i - j,
{
    lemma_bounds(v, n, i, j);
    lemma_levels();
    lemma_round(v, 1);
    lemma_round(v + n, 1);
    lemma_round(v, 512);
    lemma_round(v + n, 512);
    lemma_round(v, 0x4_0000);
    lemma_round(v + n, 0x4_0000);
    if j < i {
        lemma_solve_seq_tiles(v, p, n, i, j + 1);
        lemma_bounds(v, n, i, j + 1);
        let prev = solve_seq(v, p, n, i, j + 1);
        let s = solve_seq(v, p, n, i, j);
        let left = if inner_lo(v, n, j) < inner_lo(v, n, j + 1) {
            seq![chunk_of(j, v, p, inner_lo(v, n, j), inner_lo(v, n, j + 1))]
        } else {
            seq![]
        };
        let right = if inner_hi(v, n, j + 1) < inner_hi(v, n, j) {
            seq![chunk_of(j, v, p, inner_hi(v, n, j + 1), inner_hi(v, n, j))]
        } else {
            seq![]
        };
        assert(s == left + prev + right);
        assert forall|k: int| 0 <= k < s.len() - 1 implies #[trigger] s[k].end.0 == s[k + 1].start.0 by {
            if k < left.len() {
                if prev.len() == 0 {
                    assert(s[k + 1] == right[0]);
                } else {
                    assert(s[k + 1] == prev[0]);
                }
            } else if k < left.len() + prev.len() - 1 {
                assert(s[k] == prev[k - left.len()]);
                assert(s[k + 1] == prev[k + 1 - left.len()]);
            } else {
                assert(s[k] == prev[k - left.len()]);
                assert(s[k + 1] == right[0]);
            }
        }
        assert forall|k: int| 0 <= k < s.len() implies {
            let c = #[trigger] s[k];
            &&& c.start.0 < c.end.0
            &&& c.level.0 <= i
            &&& c.start.1 == p + c.start.0 - v
            &&& c.end.1 == p + c.end.0 - v
            &&& c.start.0 as int % (level_align(c.level.0 as nat) as int) == 0
            &&& c.end.0 as int % (level_align(c.level.0 as nat) as int) == 0
        } by {
            if k < left.len() {
            } else if k < left.len() + prev.len() {
                assert(s[k] == prev[k - left.len()]);
            } else {
                assert(s[k] == right[k - left.len() - prev.len()]);
            }
        }
    }
}

/// A tiling covers exactly its span, and its chunks are in ascending order
/// without overlap.
proof fn lemma_tiles_cover(cs: Seq<MapChunk>, lo: int, hi: int)
    requires
        tiles(cs, lo, hi),
    ensures
        lo <= hi,
        forall|x: int| lo <= x < hi <==> #[trigger] covered(cs, x),
        forall|k1: int, k2: int| 0 <= k1 < k2 < cs.len() ==> cs[k1].end.0 <= cs[k2].start.0,
    decreases cs.len(),
{
    if cs.len() > 0 {
        let rest = cs.drop_first();
        let mid = cs[0].end.0 as int;
        assert forall|k: int| 0 <= k < rest.len() - 1 implies #[trigger] rest[k].end.0 == rest[k + 1].start.0 by {
            assert(cs[k + 1].end.0 == cs[k + 2].start.0);
        }
        assert forall|k: int| 0 <= k < rest.len() implies #[trigger] rest[k].start.0 < rest[k].end.0 by {
            assert(cs[k + 1].start.0 < cs[k + 1].end.0);
        }
        if rest.len() > 0 {
            assert(cs[0].end.0 == cs[1].start.0);
        }
        assert(tiles(rest, mid, hi));
        lemma_tiles_cover(rest, mid, hi);
        assert(cs[0].start.0 < cs[0].end.0);
        assert forall|x: int| lo <= x < hi implies #[trigger] covered(cs, x) by {
            if x < mid {
                assert(in_chunk(cs[0], x));
            } else {
                assert(covered(rest, x));
                let k = choose|k: int| 0 <= k < rest.len() && in_chunk(#[trigger] rest[k], x);
                assert(in_chunk(cs[k + 1], x));
            }
        }
        assert forall|x: int| #[trigger] covered(cs, x) implies lo <= x < hi by {
            let k = choose|k: int| 0 <= k < cs.len() && in_chunk(#[trigger] cs[k], x);
            if k > 0 {
                assert(in_chunk(rest[k - 1], x));
                assert(covered(rest, x));
            }
        }
        assert forall|k1: int, k2: int| 0 <= k1 < k2 < cs.len() implies cs[k1].end.0 <= cs[k2].start.0 by {
            if k1 > 0 {
                assert(rest[k1 - 1] == cs[k1]);
                assert(rest[k2 - 1] == cs[k2]);
            } else if k2 > 1 {
                assert(rest[0] == cs[1]);
                assert(rest[k2 - 1] == cs[k2]);
                assert(rest[0].end.0 <= rest[k2 - 1].start.0);
            }
        }
    }
}

/// Whatever the input, the chunks of the solution cover exactly the pages
/// `[v, v + n)`, in ascending order and without overlap, each mapping its
/// pages onto the physical pages at the same distance from `p`.
pub proof fn lemma_solver_coverage(v: u64, p: u64, n: u64)
    requires
        v + n <= u64::MAX,
        p + n <= u64::MAX,
    ensures
        tiles(solution(v as int, p as int, n as int), v as int, v + n),
        forall|x: int| v <= x < v + n <==> #[trigger] covered(solution(v as int, p as int, n as int), x),
        forall|k1: int, k2: int| 0 <= k1 < k2 < solution(v as int, p as int, n as int).len()
            ==> solution(v as int, p as int, n as int)[k1].end.0 <= solution(v as int, p as int, n as int)[k2].start.0,
        forall|k: int| 0 <= k < solution(v as int, p as int, n as int).len() ==> {
            let c = #[trigger] solution(v as int, p as int, n as int)[k];
            &&& c.start.0 < c.end.0
            &&& c.level.0 <= 2
            &&& c.start.0 as int % (level_align(c.level.0 as nat) as int) == 0
            &&& c.end.0 as int % (level_align(c.level.0 as nat) as int) == 0
            &&& c.start.1 == p + c.start.0 - v
            &&& c.end.1 == p + c.end.0 - v
        },
{
    lemma_levels();
    let s = solution(v as int, p as int, n as int);
    match best_level(v as int, p as int, n as int) {
        Some(i) => {
            lemma_solve_seq_tiles(v as int, p as int, n as int, i, 0);
            lemma_bounds(v as int, n as int, i, 0);
            lemma_tiles_cover(s, v as int, v + n);
        },
        None => {
            assert(n == 0);
            lemma_tiles_cover(s, v as int, v + n);
        },
    }
}

/// A range aligned to the coarsest block size on both sides is mapped as
/// one chunk of the coarsest blocks.
pub proof fn lemma_solver_minimal(v: u64, p: u64, n: u64)
    requires
        v + n <= u64::MAX,
        p + n <= u64::MAX,
        v % 0x4_0000 == 0,
        p % 0x4_0000 == 0,
        n % 0x4_0000 == 0,
        n > 0,
    ensures
        solution(v as int, p as int, n as int) == seq![chunk_of(2, v as int, p as int, v as int, v + n)],
{
    lemma_levels();
    let (vi, pi, ni) = (v as int, p as int, n as int);
    assert(best_level(vi, pi, ni) == Some(2nat));
    assert(inner_lo(vi, ni, 2) == vi);
    assert(inner_hi(vi, ni, 2) == vi + ni);
    assert(inner_lo(vi, ni, 1) == vi);
    assert(inner_hi(vi, ni, 1) == vi + ni);
    assert(inner_lo(vi, ni, 0) == vi);
    assert(inner_hi(vi, ni, 0) == vi + ni);
    assert(solve_seq(vi, pi, ni, 2, 2) == seq![chunk_of(2, vi, pi, vi, vi + ni)]);
    assert(solve_seq(vi, pi, ni, 2, 1) =~= seq![chunk_of(2, vi, pi, vi, vi + ni)]);
    assert(solve_seq(vi, pi, ni, 2, 0) =~= seq![chunk_of(2, vi, pi, vi, vi + ni)]);
}

/// The solver's answer: the chunks, handed out one at a time.
pub struct MaperSolver {
    ans: Vec<MapChunk>,
    pos: usize,
    mode: ARM64,
}

/// `x` rounded up to a multiple of `a`.
fn round_up_exec(x: u64, a: u64) -> (r: u64)
    requires
        a > 0,
        x + a - 1 <= u64::MAX,
    ensures
        r == round_up(x as int, a as int),
{
    let t = x + (a - 1);
    proof {
        vstd::arithmetic::div_mod::lemma_mod_decreases(t as nat, a as nat);
    }
    t - t % a
}

/// `x` rounded down to a multiple of `a`.
fn round_down_exec(x: u64, a: u64) -> (r: u64)
    requires
        a > 0,
    ensures
        r == round_down(x as int, a as int),
{
    proof {
        vstd::arithmetic::div_mod::lemma_mod_decreases(x as nat, a as nat);
    }
    x - x % a
}

/// The chunks for levels `i` down to the leaf level, starting at the
/// feasible level `i`.
fn solve_from(v: u64, p: u64, n: u64, i: u8) -> (r: Vec<MapChunk>)
    requires
        i <= 2,
        n >= level_align(i as nat),
        v + n <= u64::MAX,
        p + n <= u64::MAX,
    ensures
        r@ == solve_seq(v as int, p as int, n as int, i as nat, 0),
{
    proof {
        lemma_levels();
        lemma_bounds(v as int, n as int, i as nat, i as nat);
    }
    let a = ARM64::get_align_for_level(PageLevel(i)).value();
    let mut lo = round_up_exec(v, a);
    let mut hi = round_down_exec(v + n, a);
    let mut out: Vec<MapChunk> = Vec::new();
    if lo < hi {
        out.push(MapChunk { level: PageLevel(i), start: Pair(lo, p + (lo - v)), end: Pair(hi, p + (hi - v)) });
    }
    assert(out@ =~= solve_seq(v as int, p as int, n as int, i as nat, i as nat));
    let mut j: u8 = i;
    while j > 0
        invariant
            i <= 2,
            j <= i,
            n >= level_align(i as nat),
            v + n <= u64::MAX,
            p + n <= u64::MAX,
            lo == inner_lo(v as int, n as int, j as nat),
            hi == inner_hi(v as int, n as int, j as nat),
            out@ == solve_seq(v as int, p as int, n as int, i as nat, j as nat),
        decreases j,
    {
        j = j - 1;
        proof {
            lemma_bounds(v as int, n as int, i as nat, j as nat);
            lemma_bounds(v as int, n as int, i as nat, (j + 1) as nat);
        }
        let a = ARM64::get_align_for_level(PageLevel(j)).value();
        let lo_j = round_up_exec(v, a);
        let hi_j = round_down_exec(v + n, a);
        let ghost prev = out@;
        if lo_j < lo {
            out.insert(0, MapChunk { level: PageLevel(j), start: Pair(lo_j, p + (lo_j - v)), end: Pair(lo, p + (lo - v)) });
        }
        if hi < hi_j {
            out.push(MapChunk { level: PageLevel(j), start: Pair(hi, p + (hi - v)), end: Pair(hi_j, p + (hi_j - v)) });
        }
        proof {
            let left = if lo_j < lo {
                seq![chunk_of(j as nat, v as int, p as int, lo_j as int, lo as int)]
            } else {
                seq![]
            };
            let right = if hi < hi_j {
                seq![chunk_of(j as nat, v as int, p as int, hi as int, hi_j as int)]
            } else {
                seq![]
            };
            assert(out@ =~= left + prev + right);
        }
        lo = lo_j;
        hi = hi_j;
    }
    out
}

impl MaperSolver {
    #[verifier::type_invariant]
    spec fn inv(&self) -> bool {
        self.pos <= self.ans@.len()
    }

    /// The chunks not handed out yet.
    pub closed spec fn remaining(&self) -> Seq<MapChunk> {
        self.ans@.subrange(self.pos as int, self.ans@.len() as int)
    }

    /// Splits the mapping of `n` pages from `vpn` onto `ppn` into chunks,
    /// using the coarsest level at which both sides agree modulo the
    /// level's alignment and that the range can fill.
    pub fn solve(vpn: VirtPageNum, ppn: PhysPageNum, n: u64, mode: ARM64) -> (r: MaperSolver)
        requires
            vpn.0 + n <= u64::MAX,
            ppn.0 + n <= u64::MAX,
        ensures
            r.remaining() == solution(vpn.0 as int, ppn.0 as int, n as int),
    {
        proof {
            lemma_levels();
        }
        let levels = ARM64::visit_levels_until(PageLevel::leaf_level());
        let mut k: usize = 0;
        while k < levels.len()
            invariant
                levels@.len() == 3,
                vpn.0 + n <= u64::MAX,
                ppn.0 + n <= u64::MAX,
                forall|t: int| 0 <= t < 3 ==> levels@[t].0 == 2 - t,
                k <= 3,
                k >= 1 ==> !feasible(vpn.0 as int, ppn.0 as int, n as int, 2),
                k >= 2 ==> !feasible(vpn.0 as int, ppn.0 as int, n as int, 1),
                k >= 3 ==> !feasible(vpn.0 as int, ppn.0 as int, n as int, 0),
            decreases 3 - k,
        {
            let level = levels[k];
            let align = ARM64::get_align_for_level(level).value();
            proof {
                lemma_levels();
            }
            if vpn.0 % align == ppn.0 % align && n >= align {
                let ans = solve_from(vpn.0, ppn.0, n, level.0);
                let r = MaperSolver { ans, pos: 0, mode };
                assert(r.remaining() =~= r.ans@);
                return r;
            }
            k = k + 1;
        }
        let r = MaperSolver { ans: Vec::new(), pos: 0, mode };
        assert(r.remaining() =~= seq![]);
        r
    }

    /// Hands out the next chunk, if any is left.
    pub fn next(&mut self) -> (r: Option<MapChunk>)
        ensures
            old(self).remaining().len() == 0 ==> r.is_none() && final(self).remaining() == old(self).remaining(),
            old(self).remaining().len() > 0 ==> r == Some(old(self).remaining()[0])
                && final(self).remaining() == old(self).remaining().drop_first(),
    {
        proof {
            use_type_invariant(&*self);
        }
        if self.pos < self.ans.len() {
            let c = self.ans[self.pos];
            self.pos = self.pos + 1;
            assert(self.remaining() =~= old(self).remaining().drop_first());
            Some(c)
        } else {
            None
        }
    }

    /// All chunks not handed out yet, in order.
    pub fn chunks(&self) -> (r: Vec<MapChunk>)
        ensures
            r@ == self.remaining(),
    {
        proof {
            use_type_invariant(self);
        }
        let mut out: Vec<MapChunk> = Vec::new();
        let mut k = self.pos;
        while k < self.ans.len()
            invariant
                self.pos <= k <= self.ans@.len(),
                out@ == self.ans@.subrange(self.pos as int, k as int),
            decreases self.ans@.len() - k,
        {
            out.push(self.ans[k]);
            k = k + 1;
            assert(out@ =~= self.ans@.subrange(self.pos as int, k as int));
        }
        out
    }
}

} // verus!
