use rusty_av1e::context::block_unit::{Block, TileBlocks};
use rusty_av1e::encoder::audit::{bucket, ForwardCounts, Phase, TrialAudit};
use rusty_av1e::encoder::bitstream::{
    build_raw_tile_group, close_payload, encode_frame, encode_show_existing_frame, largest_tile,
    start_bits, tile_size_bytes, write_key_frame_obus, write_literal, write_obu,
    write_temporal_delimiter, write_tile_group_header, write_uleb128, KeyFrameUnits, ObuType,
    TEMPORAL_DELIMITER,
};
use rusty_av1e::encoder::loop_filter::{
    check_lf_queue, LfAction, LoopFilterSettings, LruProgress, SBSQueueEntry, SuperBlockOffset,
};
use rusty_av1e::encoder::tile::{
    build_sb_var_tree, dispatch, encode_frame_of_tiles, encode_tile_group, filter_probes, percentile,
    pick_frame_filter, picks_filter, plan_post_filters, sb_all_skipped, sb_class_areas, sb_root_var, sorted,
    DeepCutoff, LruStatus, PostFilter, SuperblockPolicy, TileEncoder, TileGroupResult,
};
use rusty_av1e::mc::{FilterMode, MotionVector};
use rusty_av1e::partition::{BlockSize, ChromaSampling, RefType, TileBlockOffset};
use rusty_av1e::plane::{Plane, PlaneRegion};
use rusty_av1e::predict::PredictionMode;
use std::collections::VecDeque;

fn read_uleb128(b: &[u8]) -> (u64, usize) {
    let mut v = 0u64;
    for (i, x) in b.iter().enumerate() {
        v |= ((x & 127) as u64) << (7 * i);
        if x & 128 == 0 {
            return (v, i + 1);
        }
    }
    panic!("no end");
}

#[test]
fn numbers_in_groups_of_seven_bits() {
    for (v, want) in [
        (0u64, vec![0u8]),
        (127, vec![127]),
        (128, vec![128, 1]),
        (300, vec![0xac, 2]),
        (u64::MAX, vec![255, 255, 255, 255, 255, 255, 255, 255, 255, 1]),
    ] {
        let mut p = vec![9];
        write_uleb128(&mut p, v);
        assert_eq!(p[0], 9);
        assert_eq!(p[1..], want[..]);
        assert_eq!(read_uleb128(&p[1..]), (v, want.len()));
    }
}

#[test]
fn units_have_a_header_and_a_size() {
    let mut p = Vec::new();
    write_temporal_delimiter(&mut p);
    assert_eq!(p, TEMPORAL_DELIMITER);
    assert_eq!(p, [0x12, 0x00]);
    let mut q = Vec::new();
    write_obu(&mut q, ObuType::OBU_TEMPORAL_DELIMITER, &[]);
    assert_eq!(q, p);
    let mut q = Vec::new();
    write_obu(&mut q, ObuType::OBU_FRAME, &[1, 2, 3]);
    assert_eq!(q, [0x32, 3, 1, 2, 3]);
    let mut q = Vec::new();
    write_key_frame_obus(&mut q, &[7], &Some(vec![5, 6]), &None);
    assert_eq!(q, [0x0a, 1, 7, 5, 6]);
}

#[test]
fn packets() {
    let key = Some(KeyFrameUnits { header: vec![7], content_light: None, mastering_display: Some(vec![8]) });
    let meta = vec![vec![0x2a, 0]];
    assert_eq!(
        encode_frame(&key, &meta, &[1, 2], &[3, 4, 5]),
        [0x0a, 1, 7, 8, 0x2a, 0, 0x32, 5, 1, 2, 3, 4, 5]
    );
    assert_eq!(encode_frame(&None, &[], &[1], &[]), [0x32, 1, 1]);
    assert_eq!(encode_show_existing_frame(&None, &meta, &[9, 9]), [0x2a, 0, 0x1a, 2, 9, 9]);
}

#[test]
fn bits_become_bytes() {
    let mut w = start_bits();
    write_literal(&mut w, 0b1011, 4);
    write_literal(&mut w, 0x1ff, 9);
    assert_eq!(close_payload(w), [0b1011_1111, 0b1111_1100]);
    assert_eq!(close_payload(start_bits()), [0x80]);
    let mut w = start_bits();
    write_literal(&mut w, 0x5a, 8);
    assert_eq!(close_payload(w), [0x5a, 0x80]);
    assert_eq!(write_tile_group_header(true), [0x80]);
    assert_eq!(write_tile_group_header(false), [0x00]);
}

#[test]
fn tile_groups() {
    // A single tile stands alone.
    assert_eq!(build_raw_tile_group(1, 1, &[vec![1, 2, 3]], 1), [1, 2, 3]);
    // Each tile but the last is preceded by its size less one, low byte first.
    let tiles = [vec![1, 2, 3], vec![4], vec![5, 6]];
    assert_eq!(build_raw_tile_group(3, 1, &tiles, 2), [0, 2, 0, 1, 2, 3, 0, 0, 4, 5, 6]);
    let long = [vec![0xee; 300], vec![1]];
    let g = build_raw_tile_group(2, 1, &long, 2);
    assert_eq!(g[..3], [0, 0x2b, 0x01]);
    assert_eq!(g.len(), 1 + 2 + 300 + 1);
    assert_eq!([0, 1, 255, 256, 65535, 65536].map(tile_size_bytes), [0, 1, 1, 2, 2, 3]);
    // Of the largest tiles the last is taken.
    assert_eq!(largest_tile(&[vec![1, 2], vec![3], vec![4, 5]]), (2, 2));
    let (r, group) = encode_tile_group(3, 1, &tiles, false);
    assert_eq!(r.context_update_tile_id, Some(0));
    assert_eq!(r.max_tile_size_bytes, 1);
    assert_eq!(group, [0, 2, 1, 2, 3, 0, 4, 5, 6]);
    let (r, _) = encode_tile_group(3, 1, &tiles, true);
    assert_eq!(r.context_update_tile_id, None);
}

fn at(x: usize, y: usize) -> SuperBlockOffset {
    SuperBlockOffset { x, y }
}

fn entry(x: usize, lru: [i32; 3], cdef_coded: bool) -> SBSQueueEntry {
    SBSQueueEntry { sbo: at(x, 0), lru_index: lru, cdef_coded }
}

#[test]
fn the_queue_waits_for_its_units() {
    let s = LoopFilterSettings { planes: 3, enable_restoration: true, allow_intrabc: false };
    let mut q: VecDeque<SBSQueueEntry> = VecDeque::new();
    q.push_back(entry(0, [0, 0, 0], true));
    q.push_back(entry(1, [0, 0, 0], false));
    q.push_back(entry(2, [1, 0, 0], true));
    let mut p = LruProgress::new();
    assert!(check_lf_queue(&s, &mut q, &mut p, true).is_empty());
    assert_eq!(q.len(), 3);
    p.ready = [0, 0, 0];
    let actions = check_lf_queue(&s, &mut q, &mut p, true);
    assert_eq!(
        actions,
        vec![
            LfAction::LoopDecision(at(0, 0), true),
            LfAction::WriteLrf(at(0, 0), 0),
            LfAction::WriteLrf(at(0, 0), 1),
            LfAction::WriteLrf(at(0, 0), 2),
            LfAction::ReplayPre(at(0, 0)),
            LfAction::WriteCdef(at(0, 0)),
            LfAction::ReplayPost(at(0, 0)),
            // The units are decided and written already.
            LfAction::ReplayPre(at(1, 0)),
        ]
    );
    assert_eq!(q.len(), 1);
    assert_eq!(p.rdoed, [0, 0, 0]);
    p.ready[0] = 1;
    let actions = check_lf_queue(&s, &mut q, &mut p, true);
    // A unit of another plane is decided already, and with it this one.
    assert_eq!(
        actions,
        vec![
            LfAction::WriteLrf(at(2, 0), 0),
            LfAction::ReplayPre(at(2, 0)),
            LfAction::WriteCdef(at(2, 0)),
            LfAction::ReplayPost(at(2, 0)),
        ]
    );
    assert!(q.is_empty());
}

#[test]
fn without_restoration_only_the_filter_index_is_decided() {
    let s = LoopFilterSettings { planes: 1, enable_restoration: false, allow_intrabc: false };
    let mut q: VecDeque<SBSQueueEntry> = VecDeque::new();
    q.push_back(entry(0, [-1, 5, 5], true));
    q.push_back(entry(1, [-1, 5, 5], false));
    let mut p = LruProgress::new();
    assert_eq!(
        check_lf_queue(&s, &mut q, &mut p, true),
        vec![
            LfAction::LoopDecision(at(0, 0), true),
            LfAction::ReplayPre(at(0, 0)),
            LfAction::WriteCdef(at(0, 0)),
            LfAction::ReplayPost(at(0, 0)),
            LfAction::ReplayPre(at(1, 0)),
        ]
    );
}

fn policy() -> SuperblockPolicy {
    SuperblockPolicy {
        deep_force: false,
        deep: None,
        trellis: true,
        trellis_all: false,
        trellis_t: 20000,
        encode_bottomup: false,
        delta_q_present: false,
    }
}

#[test]
fn superblocks_are_coded_row_by_row() {
    // Two by two superblocks, the right and bottom ones cut by the edge.
    let mut t = TileEncoder::new(policy(), ChromaSampling::Cs420, true, false, true, 28, 20, 2, 2);
    let mut seen = Vec::new();
    while let Some(p) = t.begin_superblock(100) {
        seen.push((p.sbo.x, p.sbo.y, p.bo.x, p.bo.y, p.reset_left, p.bottomup));
        assert!(!p.deepen && !p.trellis);
        let s = Some(LruStatus { index: 0, last_sb: p.sbo.x == 1 && p.sbo.y == 1 });
        assert!(t.end_superblock(true, &[s, s, s]).is_empty());
    }
    assert_eq!(
        seen,
        vec![
            (0, 0, 0, 0, true, false),
            (1, 0, 16, 0, false, true),
            (0, 1, 0, 16, true, true),
            (1, 1, 16, 16, false, true),
        ]
    );
    let (deblock, actions) = t.finish([0, 3, 0, 0]);
    assert!(deblock);
    assert_eq!(actions.iter().filter(|a| matches!(a, LfAction::ReplayPre(_))).count(), 4);
    // The tile is deblocked already when its filters are decided.
    assert_eq!(actions.iter().filter(|a| matches!(a, LfAction::LoopDecision(_, false))).count(), 1);
    assert_eq!(actions.iter().filter(|a| matches!(a, LfAction::LoopDecision(_, true))).count(), 0);
    assert_eq!(actions.iter().filter(|a| matches!(a, LfAction::WriteLrf(_, _))).count(), 3);
    assert!(t.queue.is_empty());
}

#[test]
fn a_tile_with_an_incomplete_unit_is_not_emptied() {
    for delayed in [true, false] {
        let mut t = TileEncoder::new(policy(), ChromaSampling::Cs400, true, false, delayed, 16, 16, 1, 1);
        let s = Some(LruStatus { index: 0, last_sb: false });
        assert!(t.end_superblock(true, &[s, None, None]).is_empty());
        assert!(t.finish([1, 1, 1, 1]).1.is_empty());
        assert_eq!(t.queue.len(), 1);
    }
}

#[test]
fn frames_are_put_together_from_their_tiles() {
    let tiles = [vec![1, 2, 3], vec![4], vec![5, 6]];
    let header = |k: TileGroupResult| vec![k.max_tile_size_bytes as u8, k.context_update_tile_id.map_or(99, |i| i as u8)];
    let packet = encode_frame_of_tiles(3, 1, &tiles, false, &None, &[vec![0x2a, 0]], &header);
    assert_eq!(packet, [0x2a, 0, 0x32, 11, 1, 0, 0, 2, 1, 2, 3, 0, 4, 5, 6]);
    assert_eq!(packet, encode_frame_of_tiles(3, 1, &tiles, false, &None, &[vec![0x2a, 0]], &header));
    let packet = encode_frame_of_tiles(1, 1, &tiles[..1], true, &None, &[], &header);
    assert_eq!(packet, [0x32, 5, 1, 99, 1, 2, 3]);
}

#[test]
fn units_are_written_as_they_complete_where_nothing_is_delayed() {
    let mut t = TileEncoder::new(policy(), ChromaSampling::Cs400, true, false, false, 32, 16, 2, 1);
    let s = |last_sb| Some(LruStatus { index: 0, last_sb });
    assert!(t.end_superblock(false, &[s(false), None, None]).is_empty());
    let a = t.end_superblock(false, &[s(true), None, None]);
    assert_eq!(
        a,
        vec![
            LfAction::LoopDecision(at(0, 0), true),
            LfAction::WriteLrf(at(0, 0), 0),
            LfAction::ReplayPre(at(0, 0)),
            LfAction::ReplayPre(at(1, 0)),
        ]
    );
    assert!(t.begin_superblock(0).is_none());
    assert_eq!(t.finish([9, 9, 9, 9]).0, false);
}

#[test]
fn deep_search_and_level_optimisation_follow_the_variance() {
    let new = |p| TileEncoder::new(p, ChromaSampling::Cs420, true, false, true, 16, 16, 1, 1);
    let plan = |p, rv| new(p).begin_superblock(rv).unwrap();
    let hi = SuperblockPolicy { deep: Some(DeepCutoff { cutoff: 50, route_lo: false }), ..policy() };
    assert!(plan(hi, 50).deepen && !plan(hi, 49).deepen);
    let lo = SuperblockPolicy { deep: Some(DeepCutoff { cutoff: 50, route_lo: true }), ..policy() };
    assert!(plan(lo, 50).deepen && !plan(lo, 51).deepen);
    assert!(plan(SuperblockPolicy { deep_force: true, ..policy() }, 0).deepen);
    assert!(!plan(policy(), 20000).trellis && plan(policy(), 20001).trellis);
    assert!(plan(SuperblockPolicy { trellis_all: true, ..policy() }, 0).trellis);
    assert!(!plan(SuperblockPolicy { trellis_all: true, trellis: false, ..policy() }, 1 << 40).trellis);
    assert!(plan(SuperblockPolicy { encode_bottomup: true, ..policy() }, 0).bottomup);
}

#[test]
fn thresholds_by_rank() {
    let vars = vec![50, -3, 7, 7, 900];
    assert_eq!(sorted(&vars), vec![-3, 7, 7, 50, 900]);
    assert_eq!([0, 1, 2, 3, 4, 99].map(|r| percentile(&vars, r)), [-3, 7, 7, 50, 900, 900]);
    assert_eq!(percentile(&vec![], 0), i64::MAX);
    let d = dispatch(&vars, 3, true, None, 100);
    assert_eq!((d.thresh, d.route_hi, d.split_t), (50, true, 20000));
    assert_eq!(dispatch(&vars, 0, false, Some(-5), 100).split_t, -5);
}

fn block(bsize: BlockSize, skip: bool) -> Block {
    Block {
        mode: PredictionMode::NEWMV,
        bsize,
        n4_w: 4,
        n4_h: 4,
        skip,
        ref_frames: [RefType::LAST_FRAME, RefType::NONE_FRAME],
        mv: [MotionVector { row: 0, col: 0 }; 2],
    }
}

#[test]
fn what_a_superblock_was_coded_as() {
    let mut blocks = TileBlocks { data: vec![block(BlockSize::BLOCK_32X32, true); 20 * 10], cols: 20, rows: 10 };
    let bo = TileBlockOffset { x: 0, y: 0 };
    assert_eq!(sb_class_areas(&blocks, bo), [0, 160, 0, 0, 0]);
    assert!(sb_all_skipped(&blocks, bo));
    blocks.data[3] = block(BlockSize::BLOCK_4X8, false);
    blocks.data[17] = block(BlockSize::BLOCK_64X16, true);
    assert_eq!(sb_class_areas(&blocks, bo), [0, 159, 0, 0, 1]);
    assert!(!sb_all_skipped(&blocks, bo));
    // The part of the next superblock that lies inside the tile.
    let right = TileBlockOffset { x: 16, y: 0 };
    assert_eq!(sb_class_areas(&blocks, right), [1, 39, 0, 0, 0]);
    assert!(sb_all_skipped(&blocks, right));
}

#[test]
fn variances_at_the_edge_repeat_the_last_sample() {
    let mut p: Plane<u8> = Plane::new(80, 80, 0, 0, 0, 0);
    for y in 0..80 {
        for x in 0..80 {
            p.set(x, y, if x == 71 { 200 } else { 100 });
        }
    }
    let bo = TileBlockOffset { x: 16, y: 16 };
    let src = PlaneRegion::new(&p, 64, 64, 16, 16);
    // Eight by eight samples are inside, and the last column is repeated 57 times:
    // 7 columns of 100 and 57 of 200.
    let v = sb_root_var(&src, None, 18, 18, bo);
    let (sum, sse) = (64 * (7 * 100 + 57 * 200i64), 64 * (7 * 10000 + 57 * 40000i64));
    assert_eq!(v, 256 * (sse - ((sum * sum) >> 12)) >> 12);
    assert_eq!(build_sb_var_tree(&src, None, 18, 18, bo).v64.variance(), v);
    assert_eq!(sb_root_var(&src, Some(&src), 18, 18, bo), 0);
}

#[test]
fn filters_are_compared_on_a_coarse_grid() {
    let bo = |x, y| TileBlockOffset { x, y };
    assert_eq!(filter_probes(4, 3, 64, 48), vec![bo(0, 0), bo(32, 0), bo(0, 32), bo(32, 32)]);
    assert_eq!(filter_probes(4, 3, 60, 40), vec![bo(0, 0), bo(32, 0)]);
    assert_eq!(pick_frame_filter(true, FilterMode::SMOOTH, &[(10, 5), (3, 7)]), FilterMode::SHARP);
    assert_eq!(pick_frame_filter(true, FilterMode::SMOOTH, &[(10, 5), (2, 7)]), FilterMode::REGULAR);
    assert_eq!(pick_frame_filter(true, FilterMode::SMOOTH, &[]), FilterMode::REGULAR);
    assert_eq!(pick_frame_filter(false, FilterMode::SMOOTH, &[(9, 1)]), FilterMode::SMOOTH);
    assert!(picks_filter(true, true, 1, 1));
    assert!(!picks_filter(true, true, 2, 1));
    assert!(!picks_filter(true, false, 1, 1));
    assert!(!picks_filter(false, true, 1, 1));
}

#[test]
fn post_filters_in_order() {
    assert_eq!(
        plan_post_filters([1, 0, 0, 0], true, true),
        vec![PostFilter::Deblock, PostFilter::KeepDeblocked, PostFilter::Cdef, PostFilter::Restoration]
    );
    assert_eq!(plan_post_filters([0, 0, 9, 9], false, true), vec![PostFilter::KeepDeblocked, PostFilter::Restoration]);
    assert_eq!(plan_post_filters([0, 2, 0, 0], true, false), vec![PostFilter::Deblock, PostFilter::KeepDeblocked, PostFilter::Cdef]);
    assert_eq!(plan_post_filters([0; 4], false, false), vec![]);
}

#[test]
fn audits_count_by_size_and_phase() {
    assert_eq!([4, 8, 16, 32, 64, 128].map(bucket), [3, 3, 2, 1, 0, 0]);
    let mut a = TrialAudit::new();
    a.record(1, true, 10);
    a.record(1, false, 7);
    a.record(1, true, 5);
    // Trials stand before final encodes.
    assert_eq!(a.cycles, [0, 0, 15, 7, 0, 0, 0, 0]);
    assert_eq!(a.calls, [0, 0, 2, 1, 0, 0, 0, 0]);
    let mut f = ForwardCounts::new();
    let before = f.enter(Phase::TxSearch);
    f.count(false);
    f.count(true);
    f.enter(before);
    f.count(true);
    assert_eq!(f.counts, [0, 0, 1, 1, 1, 0]);
}
