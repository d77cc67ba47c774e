//! Level iteration, layouts, and the range-to-mapping solver.
use zihai_mm::{
    LevelIter, MapPairs, PageLayout, PageLevel, PageMode, PhysPageNum, Sv39, Sv39x4, VirtPageNum,
};

fn collect_levels(mut it: LevelIter) -> Vec<PageLevel> {
    let mut out = Vec::new();
    while let Some(l) = it.next() {
        out.push(l);
    }
    out
}

fn collect_pairs<M: PageMode>(mut mp: MapPairs<M>) -> Vec<(PageLevel, u64, u64)> {
    let mut out = Vec::new();
    while let Some((lvl, range)) = mp.next() {
        out.push((lvl, range.start.0, range.end.0));
    }
    out
}

#[test]
fn layouts_for_levels() {
    let layout_frames_sv39 = [
        (PageLevel(0), 1u64),
        (PageLevel(1), 512),
        (PageLevel(2), 512 * 512),
    ];
    for (level, align_in_frames) in layout_frames_sv39 {
        assert_eq!(
            Sv39::get_layout_for_level(level).align_in_frames(),
            align_in_frames
        );
    }
    let l: PageLayout = Sv39::get_layout_for_level(PageLevel(1));
    assert_eq!(l.page_size::<Sv39>(), 512 * 4096);
}

#[test]
fn visit_levels_orderings() {
    let visit_levels_until_sv39: [(PageLevel, &'static [PageLevel]); 3] = [
        (PageLevel(0), &[PageLevel(2), PageLevel(1), PageLevel(0)]),
        (PageLevel(1), &[PageLevel(2), PageLevel(1)]),
        (PageLevel(2), &[PageLevel(2)]),
    ];
    for (level, iter_result) in visit_levels_until_sv39 {
        assert_eq!(collect_levels(Sv39::visit_levels_until(level)), iter_result);
    }
    let visit_levels_before_sv39: [(PageLevel, &'static [PageLevel]); 3] = [
        (PageLevel(0), &[PageLevel(2), PageLevel(1)]),
        (PageLevel(1), &[PageLevel(2)]),
        (PageLevel(2), &[]),
    ];
    for (level, iter_result) in visit_levels_before_sv39 {
        assert_eq!(
            collect_levels(Sv39::visit_levels_before(level)),
            iter_result
        );
    }
    let visit_levels_from_sv39: [(PageLevel, &'static [PageLevel]); 3] = [
        (PageLevel(0), &[PageLevel(0)]),
        (PageLevel(1), &[PageLevel(1), PageLevel(0)]),
        (PageLevel(2), &[PageLevel(2), PageLevel(1), PageLevel(0)]),
    ];
    for (level, iter_result) in visit_levels_from_sv39 {
        assert_eq!(collect_levels(Sv39::visit_levels_from(level)), iter_result);
    }
}

#[test]
fn rising_orderings() {
    assert_eq!(
        collect_levels(LevelIter::rising_includes(0, 2)),
        [PageLevel(0), PageLevel(1), PageLevel(2)]
    );
    assert_eq!(
        collect_levels(LevelIter::rising_excludes(0, 2)),
        [PageLevel(0), PageLevel(1)]
    );
}

#[test]
fn test_map_solve() {
    let pairs = collect_pairs(MapPairs::solve(
        VirtPageNum(0x90_000),
        PhysPageNum(0x50_000),
        666666,
        Sv39,
    ));
    assert_eq!(
        pairs,
        [
            (PageLevel(2), 786432, 1048576),
            (PageLevel(1), 589824, 786432),
            (PageLevel(1), 1048576, 1256448),
            (PageLevel(0), 1256448, 1256490)
        ]
    );
    let pairs = collect_pairs(MapPairs::solve(
        VirtPageNum(0x90_001),
        PhysPageNum(0x50_001),
        77777,
        Sv39,
    ));
    assert_eq!(
        pairs,
        [
            (PageLevel(1), 590336, 667136),
            (PageLevel(0), 589825, 590336),
            (PageLevel(0), 667136, 667602)
        ]
    );
    let pairs = collect_pairs(MapPairs::solve(
        VirtPageNum(0x12_345),
        PhysPageNum(0x22_345),
        888888,
        Sv39x4,
    ));
    assert_eq!(
        pairs,
        [
            (PageLevel(1), 74752, 963072),
            (PageLevel(0), 74565, 74752),
            (PageLevel(0), 963072, 963453)
        ]
    );
    let pairs = collect_pairs(MapPairs::solve(
        VirtPageNum(0x400000),
        PhysPageNum(0x200000),
        0x40000000,
        Sv39x4,
    ));
    assert_eq!(pairs, [(PageLevel(2), 4194304, 1077936128)]);
}

#[test]
fn solve_aligned_round_trip() {
    // start pages congruent and aligned, count an exact multiple: one
    // segment at the coarsest matching level covers the whole range
    let pairs = collect_pairs(MapPairs::solve(
        VirtPageNum(512 * 7),
        PhysPageNum(512 * 19),
        512 * 3,
        Sv39,
    ));
    assert_eq!(pairs, [(PageLevel(1), 512 * 7, 512 * 10)]);
    let pairs = collect_pairs(MapPairs::solve(
        VirtPageNum(262144),
        PhysPageNum(262144 * 5),
        262144,
        Sv39,
    ));
    assert_eq!(pairs, [(PageLevel(2), 262144, 2 * 262144)]);
}

#[test]
fn solve_tiles_without_gap_or_overlap() {
    // ascending concatenation of the produced ranges reconstructs the
    // requested range exactly
    let mut pairs = collect_pairs(MapPairs::solve(
        VirtPageNum(0x90_000),
        PhysPageNum(0x50_000),
        666666,
        Sv39,
    ));
    pairs.sort_by_key(|p| p.1);
    let mut expected_start = 0x90_000u64;
    for (_lvl, s, e) in pairs {
        assert_eq!(s, expected_start, "no gap, no overlap");
        assert!(e > s);
        expected_start = e;
    }
    assert_eq!(expected_start, 0x90_000 + 666666);
}

#[test]
fn solve_empty_request() {
    let pairs = collect_pairs(MapPairs::solve(
        VirtPageNum(0x1234),
        PhysPageNum(0x5678),
        0,
        Sv39,
    ));
    assert!(pairs.is_empty());
}

#[test]
fn sv39x4_wider_root_masks() {
    assert_eq!(Sv39x4::vpn_mask_by_level(PageLevel(0)), 511);
    assert_eq!(Sv39x4::vpn_mask_by_level(PageLevel(1)), 511);
    assert_eq!(Sv39x4::vpn_mask_by_level(PageLevel(2)), 2047);
    assert_eq!(
        Sv39x4::vpn_index(VirtPageNum(0x3FF << 18 | 77), PageLevel(2)),
        0x3FF
    );
    assert_eq!(Sv39::vpn_index(VirtPageNum(0x3FF << 18 | 77), PageLevel(2)), 0x1FF);
}
