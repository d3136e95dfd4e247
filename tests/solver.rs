use vmcore::page::{PageLevel, PhysPageNum, VirtPageNum, ARM64};
use vmcore::solver::{MapChunk, MaperSolver, Pair};

fn chunk(level: u8, vs: u64, ps: u64, ve: u64, pe: u64) -> MapChunk {
    MapChunk { level: PageLevel(level), start: Pair(vs, ps), end: Pair(ve, pe) }
}

fn pages(cs: &[MapChunk]) -> u64 {
    cs.iter().map(|c| c.end.0 - c.start.0).sum()
}

#[test]
fn aligned_range_is_one_coarse_chunk() {
    let s = MaperSolver::solve(VirtPageNum(0), PhysPageNum(0), 512 * 512, ARM64);
    assert_eq!(s.chunks(), vec![chunk(2, 0, 0, 512 * 512, 512 * 512)]);
}

#[test]
fn two_giant_blocks_stay_one_chunk() {
    let s = MaperSolver::solve(VirtPageNum(0x4_0000), PhysPageNum(0x8_0000), 2 * 512 * 512, ARM64);
    assert_eq!(s.chunks(), vec![chunk(2, 0x4_0000, 0x8_0000, 0xc_0000, 0x10_0000)]);
}

#[test]
fn range_of_0x3e00_pages_from_zero() {
    let cs = MaperSolver::solve(VirtPageNum(0), PhysPageNum(0), 0x3e00, ARM64).chunks();
    assert_eq!(pages(&cs), 0x3e00);
    // 0x3e00 pages are 31 whole 2 MiB blocks: no finer edge is needed
    assert_eq!(cs, vec![chunk(1, 0, 0, 0x3e00, 0x3e00)]);
}

#[test]
fn unaligned_range_gets_finer_edges() {
    let cs = MaperSolver::solve(VirtPageNum(1), PhysPageNum(1), 0x3e00, ARM64).chunks();
    assert_eq!(
        cs,
        vec![chunk(0, 1, 1, 512, 512), chunk(1, 512, 512, 0x3e00, 0x3e00), chunk(0, 0x3e00, 0x3e00, 0x3e01, 0x3e01)]
    );
    assert_eq!(pages(&cs), 0x3e00);
    let levels: Vec<u8> = cs.iter().map(|c| c.level.0).collect();
    assert!(levels.contains(&0) && levels.contains(&1));
}

#[test]
fn edges_on_three_levels() {
    let v = 0x4_0000 - 513;
    let n = 0x4_0000 + 1024;
    let cs = MaperSolver::solve(VirtPageNum(v), PhysPageNum(v), n, ARM64).chunks();
    assert_eq!(
        cs,
        vec![
            chunk(0, v, v, 0x4_0000 - 512, 0x4_0000 - 512),
            chunk(1, 0x4_0000 - 512, 0x4_0000 - 512, 0x4_0000, 0x4_0000),
            chunk(2, 0x4_0000, 0x4_0000, 0x8_0000, 0x8_0000),
            chunk(0, 0x8_0000, 0x8_0000, v + n, v + n),
        ]
    );
    assert_eq!(pages(&cs), n);
}

#[test]
fn disagreeing_sides_map_base_pages() {
    let cs = MaperSolver::solve(VirtPageNum(0), PhysPageNum(1), 1024, ARM64).chunks();
    assert_eq!(cs, vec![chunk(0, 0, 1, 1024, 1025)]);
}

#[test]
fn empty_range_gives_no_chunk() {
    let cs = MaperSolver::solve(VirtPageNum(7), PhysPageNum(9), 0, ARM64).chunks();
    assert!(cs.is_empty());
}

#[test]
fn chunks_cover_the_range_without_overlap() {
    for (v, p, n) in [(3u64, 3u64, 5000u64), (1000, 488, 700_000), (0, 0, 1), (511, 1023, 2000), (0x4_0001, 1, 0x9_0000)] {
        let cs = MaperSolver::solve(VirtPageNum(v), PhysPageNum(p), n, ARM64).chunks();
        let mut at = v;
        for c in &cs {
            assert_eq!(c.start.0, at);
            assert!(c.end.0 > c.start.0);
            assert_eq!(c.start.1, p + (c.start.0 - v));
            at = c.end.0;
        }
        assert_eq!(at, v + n);
    }
}

#[test]
fn solver_hands_out_chunks_in_order() {
    let mut s = MaperSolver::solve(VirtPageNum(1), PhysPageNum(1), 0x3e00, ARM64);
    assert_eq!(s.next(), Some(chunk(0, 1, 1, 512, 512)));
    assert_eq!(s.chunks().len(), 2);
    assert!(s.next().is_some());
    assert!(s.next().is_some());
    assert_eq!(s.next(), None);
    assert_eq!(s.next(), None);
}
