use rusty_av1e::context::block_unit::{Block, TileBlocks};
use rusty_av1e::encoder::block::{
    encode_block_post_cdef, encode_block_pre_cdef, encode_block_with_modes, prepare_whole,
    record_block_info, remap_mode, BlockSettings, BlockStep, CandidateMV, CodedBlock, CodedBlockInfo,
    EncoderStats, MvPrecision, PrepStep, SegmentationSyntax,
};
use rusty_av1e::encoder::motion::{
    motion_compensate, save_block_motion, InterBlock, InterPrediction, TileGrid,
};
use rusty_av1e::encoder::partition_search::{
    builds_variance_tree, choose_topdown, follow_probe, node_of, plan_topdown, variance_node,
    variance_source, varpart_route_sb, varpart_sb_active, varpart_split_threshold, BottomUp, NodeVariance,
    PartitionRange, SearchAction, SearchBlock, SearchEvent, TopdownChoice, VarianceSource, VarpartDispatch,
};
use rusty_av1e::encoder::txfm::{
    cache_luma, clip_visible_bsize, combine_results, diff, encode_tx_block, get_log_tx_scale,
    largest_chroma_tx_size, pd0_block_rate, pd0_candidates, pd0_motion, pd0_real_cost, pd0_totals,
    raw_tx_distortion, tx_block_result, tx_blocks_result, write_tx_blocks, write_tx_tree,
    write_tx_tree_chroma, LumaReuse, RDOType, ResidualBlock, ResidualStep, TxBlock, TxBlockStep, TxPlace,
};
use rusty_av1e::mc::MotionVector;
use rusty_av1e::partition::{BlockSize, ChromaSampling, PartitionType, RefType, TileBlockOffset};
use rusty_av1e::plane::{Plane, PlaneRegion};
use rusty_av1e::predict::{AngleDelta, IntraParam, PredictionMode};
use rusty_av1e::transform::{TxSize, TxType};
use rusty_av1e::varpart::build_var_tree;

const ZERO: MotionVector = MotionVector { row: 0, col: 0 };

fn mv(row: i16, col: i16) -> MotionVector {
    MotionVector { row, col }
}

fn bo(x: usize, y: usize) -> TileBlockOffset {
    TileBlockOffset { x, y }
}

fn settings() -> BlockSettings {
    BlockSettings {
        has_inter: true,
        chroma_sampling: ChromaSampling::Cs420,
        xdec: 1,
        ydec: 1,
        use_128x128_superblock: false,
        code_deltas: true,
        block_deltas_enabled: false,
        block_delta_multi: false,
        force_integer_mv: 0,
        allow_high_precision_mv: false,
        allow_screen_content_tools: 0,
        enable_filter_intra: false,
        enable_intra_edge_filter: true,
        tx_mode_select: true,
        enable_inter_txfm_split: true,
    }
}

fn coded(mode: PredictionMode, mvs: [MotionVector; 2]) -> CodedBlock {
    CodedBlock {
        luma_mode: mode,
        chroma_mode: mode,
        angle_delta_y: 1,
        angle_delta_uv: -2,
        mvs,
        bsize: BlockSize::BLOCK_16X16,
        bo: bo(4, 4),
        skip: false,
        tx_size: TxSize::TX_8X8,
        tx_type: TxType::DCT_DCT,
        counts_only: false,
        keep_stats: false,
    }
}

fn candidate(this_mv: MotionVector, comp_mv: MotionVector, weight: u32) -> CandidateMV {
    CandidateMV { this_mv, comp_mv, weight }
}

#[test]
fn segments_come_before_or_after_the_skip_flag() {
    let seg = SegmentationSyntax { enabled: true, update_map: true, preskip: true };
    let (steps, cdef) = encode_block_pre_cdef(seg, true, false, true, false);
    assert_eq!(
        steps,
        vec![
            BlockStep::SetSkip { skip: true },
            BlockStep::WriteSegmentation { skip: false },
            BlockStep::WriteSkip { skip: true },
        ]
    );
    assert!(!cdef);
    let (steps, cdef) =
        encode_block_pre_cdef(SegmentationSyntax { preskip: false, ..seg }, true, false, false, true);
    assert_eq!(
        steps,
        vec![BlockStep::WriteSkip { skip: false }, BlockStep::WriteSegmentation { skip: false }]
    );
    assert!(cdef);
    let off = SegmentationSyntax { enabled: false, ..seg };
    let (steps, cdef) = encode_block_pre_cdef(off, false, true, false, true);
    assert_eq!(steps, vec![BlockStep::WriteSkip { skip: false }]);
    assert!(cdef);
}

#[test]
fn a_new_motion_vector_is_written_against_the_first_candidate() {
    let stack = [candidate(mv(8, 8), ZERO, 700), candidate(mv(1, 1), ZERO, 10)];
    let b = coded(PredictionMode::NEWMV, [mv(3, 4), ZERO]);
    let steps = encode_block_post_cdef(&settings(), &b, &stack);
    assert_eq!(
        steps,
        vec![
            BlockStep::SetBlockSize,
            BlockStep::SetMode,
            BlockStep::SetTxSize,
            BlockStep::SetMotionVectors,
            BlockStep::SetRefFrames,
            BlockStep::ClearCodeDeltas,
            BlockStep::WriteIsInter { is_inter: true },
            BlockStep::FillNeighboursRefCounts,
            BlockStep::WriteRefFrames,
            BlockStep::WriteInterMode { mode: PredictionMode::NEWMV },
            BlockStep::WriteDrlMode { drl_mode: false, ctx: 1 },
            BlockStep::WriteMv { mv: mv(3, 4), ref_mv: mv(8, 8), precision: MvPrecision::Low },
            BlockStep::WriteTxSizeInter { max_tx_size: TxSize::TX_16X16, split: true },
            BlockStep::RecordBlockInfo,
            BlockStep::MotionCompensate,
            BlockStep::WriteTxTree,
        ]
    );
    // A trial records no contexts but writes the same.
    let trial = CodedBlock { counts_only: true, ..b };
    let writes = |s: &BlockStep| {
        !matches!(
            s,
            BlockStep::SetBlockSize
                | BlockStep::SetMode
                | BlockStep::SetTxSize
                | BlockStep::SetMotionVectors
                | BlockStep::RecordBlockInfo
        )
    };
    let t = encode_block_post_cdef(&settings(), &trial, &stack);
    assert_eq!(t, steps.into_iter().filter(writes).collect::<Vec<BlockStep>>());
}

#[test]
fn candidates_are_indexed_in_unary() {
    let stack = [
        candidate(mv(1, 0), ZERO, 700),
        candidate(mv(2, 0), ZERO, 700),
        candidate(mv(3, 0), ZERO, 10),
        candidate(mv(4, 0), ZERO, 10),
    ];
    let drl = |m, v| -> Vec<(bool, usize)> {
        let b = coded(m, [v, ZERO]);
        encode_block_post_cdef(&settings(), &b, &stack)
            .iter()
            .filter_map(|s| match s {
                BlockStep::WriteDrlMode { drl_mode, ctx } => Some((*drl_mode, *ctx)),
                _ => None,
            })
            .collect()
    };
    assert_eq!(drl(PredictionMode::NEARESTMV, mv(1, 0)), vec![]);
    assert_eq!(drl(PredictionMode::NEAR0MV, mv(2, 0)), vec![(false, 1)]);
    assert_eq!(drl(PredictionMode::NEAR1MV, mv(3, 0)), vec![(true, 1), (false, 2)]);
    assert_eq!(drl(PredictionMode::NEAR2MV, mv(4, 0)), vec![(true, 1), (true, 2)]);
}

#[test]
fn an_intra_block_of_an_inter_frame() {
    let mut b = coded(PredictionMode::V_PRED, [ZERO; 2]);
    b.chroma_mode = PredictionMode::UV_CFL_PRED;
    b.skip = true;
    b.keep_stats = true;
    let f = BlockSettings {
        block_deltas_enabled: true,
        allow_screen_content_tools: 2,
        enable_filter_intra: true,
        ..settings()
    };
    assert_eq!(
        encode_block_post_cdef(&f, &b, &[]),
        vec![
            BlockStep::ResetSkipContext,
            BlockStep::SetBlockSize,
            BlockStep::SetMode,
            BlockStep::SetTxSize,
            BlockStep::SetMotionVectors,
            BlockStep::SetRefFrames,
            BlockStep::WriteBlockDeblockDeltas { multi: false, planes: 3 },
            BlockStep::ClearCodeDeltas,
            BlockStep::WriteIsInter { is_inter: false },
            BlockStep::WriteIntraMode { mode: PredictionMode::V_PRED },
            BlockStep::WriteAngleDelta { delta: 1, mode: PredictionMode::V_PRED },
            BlockStep::WriteIntraUvMode,
            BlockStep::WriteCflAlphas,
            BlockStep::WriteUsePaletteMode,
            BlockStep::WriteTxSizeIntra,
            BlockStep::UpdateTxSizeContext { skip: false },
            BlockStep::CountStats { pixels: 64 },
            BlockStep::RecordBlockInfo,
            BlockStep::WriteTxBlocks,
        ]
    );
    let key = BlockSettings { has_inter: false, ..settings() };
    let steps = encode_block_post_cdef(&key, &coded(PredictionMode::DC_PRED, [ZERO; 2]), &[]);
    assert!(steps.contains(&BlockStep::WriteIntraModeKf { mode: PredictionMode::DC_PRED }));
}

#[test]
fn modes_follow_the_final_candidates() {
    let single = [RefType::LAST_FRAME, RefType::NONE_FRAME];
    let stack = [
        candidate(mv(1, 0), mv(5, 5), 0),
        candidate(mv(2, 0), mv(6, 6), 0),
        candidate(mv(1, 0), mv(7, 7), 0),
    ];
    let one = |v, s: &[CandidateMV]| remap_mode(PredictionMode::NEWMV, single, [v, ZERO], s);
    // The last candidate with the vector is named.
    assert_eq!(one(mv(1, 0), &stack), PredictionMode::NEAR1MV);
    assert_eq!(one(mv(2, 0), &stack), PredictionMode::NEAR0MV);
    assert_eq!(one(mv(9, 9), &stack), PredictionMode::NEWMV);
    assert_eq!(one(ZERO, &stack), PredictionMode::GLOBALMV);
    assert_eq!(one(ZERO, &stack[..1]), PredictionMode::NEAR0MV);
    assert_eq!(one(ZERO, &[]), PredictionMode::NEARESTMV);
    assert_eq!(
        remap_mode(PredictionMode::GLOBALMV, single, [mv(1, 0), ZERO], &stack),
        PredictionMode::GLOBALMV
    );
    let both = [RefType::LAST_FRAME, RefType::ALTREF_FRAME];
    let two = |a, b| remap_mode(PredictionMode::NEW_NEWMV, both, [a, b], &stack);
    assert_eq!(two(mv(1, 0), mv(5, 5)), PredictionMode::NEAREST_NEARESTMV);
    assert_eq!(two(mv(2, 0), mv(6, 6)), PredictionMode::NEAR_NEAR0MV);
    assert_eq!(two(mv(1, 0), mv(7, 7)), PredictionMode::NEAR_NEAR1MV);
    assert_eq!(two(mv(1, 0), mv(9, 9)), PredictionMode::NEAREST_NEWMV);
    assert_eq!(two(mv(9, 9), mv(5, 5)), PredictionMode::NEW_NEARESTMV);
    assert_eq!(two(mv(9, 9), mv(9, 9)), PredictionMode::NEW_NEWMV);
    assert_eq!(two(ZERO, ZERO), PredictionMode::GLOBAL_GLOBALMV);
    assert_eq!(
        remap_mode(PredictionMode::DC_PRED, single, [ZERO; 2], &[]),
        PredictionMode::DC_PRED
    );
}

#[test]
fn blocks_without_coefficients_are_skipped() {
    let single = [RefType::LAST_FRAME, RefType::NONE_FRAME];
    let p = encode_block_with_modes(3, false, false, single, true, false);
    assert!(p.skip && p.redo_tx && !p.is_compound && !p.cdef_coded && !p.pre_after_cdef);
    assert_eq!(
        p.steps,
        vec![
            PrepStep::SetSegment { sidx: 3 },
            PrepStep::FindCandidates { is_compound: false },
            PrepStep::DecideTransform { skip: true },
        ]
    );
    let p = encode_block_with_modes(1, false, true, [RefType::LAST_FRAME; 2], true, false);
    assert!(!p.skip && !p.redo_tx && p.is_compound && p.cdef_coded);
    assert_eq!(
        p.steps,
        vec![PrepStep::SetSegment { sidx: 1 }, PrepStep::FindCandidates { is_compound: true }]
    );
    let p = encode_block_with_modes(0, true, true, single, true, true);
    assert!(p.skip && !p.redo_tx && p.cdef_coded && p.pre_after_cdef);
}

#[test]
fn the_segment_comes_before_the_transform() {
    let single = [RefType::LAST_FRAME, RefType::NONE_FRAME];
    assert_eq!(
        prepare_whole(5, true, PredictionMode::NEWMV, single),
        vec![
            PrepStep::SetSegment { sidx: 5 },
            PrepStep::DecideTransform { skip: true },
            PrepStep::FindCandidates { is_compound: false },
            PrepStep::RemapMode,
            PrepStep::SaveMotion,
        ]
    );
    let intra = [RefType::INTRA_FRAME, RefType::NONE_FRAME];
    assert_eq!(prepare_whole(0, false, PredictionMode::DC_PRED, intra).len(), 3);
}

#[test]
fn statistics_count_the_samples_of_one_transform() {
    let mut stats = EncoderStats::default();
    let mut b = coded(PredictionMode::V_PRED, [ZERO; 2]);
    b.chroma_mode = PredictionMode::DC_PRED;
    b.tx_type = TxType::IDTX;
    b.skip = true;
    stats.count(&b);
    b.skip = false;
    stats.count(&b);
    assert_eq!(b.tx_size.area(), 64);
    assert_eq!(stats.block_size_counts[b.bsize.index()], 128);
    assert_eq!(stats.block_size_counts.iter().sum::<usize>(), 128);
    assert_eq!(stats.tx_type_counts[9], 128);
    assert_eq!(stats.tx_type_counts.iter().sum::<usize>(), 128);
    assert_eq!(stats.luma_pred_mode_counts[1], 128);
    assert_eq!(stats.chroma_pred_mode_counts[0], 128);
    assert_eq!(stats.skip_block_count, 64);
}

#[test]
fn block_info_is_recorded_inside_the_tile() {
    let none = CodedBlockInfo {
        luma_mode: PredictionMode::PAETH_PRED,
        chroma_mode: PredictionMode::PAETH_PRED,
        reference_types: [RefType::INTRA_FRAME, RefType::NONE_FRAME],
    };
    let mut g = TileGrid { data: vec![none; 12], cols: 4, rows: 3 };
    let mut b = coded(PredictionMode::NEWMV, [ZERO; 2]);
    b.bsize = BlockSize::BLOCK_8X8;
    b.bo = bo(3, 1);
    record_block_info(&mut g, &b, [RefType::LAST_FRAME, RefType::ALTREF_FRAME]);
    let set: Vec<usize> = (0..12).filter(|&i| g.data[i].luma_mode == PredictionMode::NEWMV).collect();
    assert_eq!(set, vec![7, 11]);
    assert_eq!(g.data[7].chroma_mode, PredictionMode::NEWMV);
    assert_eq!(g.data[11].reference_types, [RefType::LAST_FRAME, RefType::ALTREF_FRAME]);
    assert_eq!(g.data[6].reference_types[0], RefType::INTRA_FRAME);
}

fn tx_block() -> TxBlock {
    TxBlock {
        tx_bo: bo(2, 2),
        mi_width: 16,
        mi_height: 16,
        frame_x: 2,
        frame_y: 2,
        width: 60,
        height: 60,
        w_in_b: 16,
        h_in_b: 16,
        xdec: 0,
        ydec: 0,
        bsize: BlockSize::BLOCK_8X8,
        mode: PredictionMode::NEWMV,
        tx_size: TxSize::TX_8X8,
        tx_type: TxType::DCT_DCT,
        skip: false,
        enable_intra_edge_filter: true,
        rdo_type: RDOType::PixelDistRealRate,
        need_recon_pixel: true,
        use_tx_domain_distortion: false,
        trellis: true,
        counts_only: false,
    }
}

#[test]
fn steps_of_a_transform_block() {
    let b = tx_block();
    assert_eq!(
        encode_tx_block(&b),
        vec![TxBlockStep::Diff, TxBlockStep::ForwardTransform, TxBlockStep::Quantize]
    );
    assert_eq!(
        b.finish(5),
        vec![
            TxBlockStep::WriteCoeffs { width: 8, height: 8 },
            TxBlockStep::Dequantize,
            TxBlockStep::InverseTransformAdd,
        ]
    );
    assert_eq!(b.finish(0).len(), 2);
    assert!(b.wants_trellis(3) && !b.wants_trellis(2));
    assert!(!TxBlock { counts_only: true, ..b }.wants_trellis(9));
    // Past the visible frame the residual is zero, and the coded part is cut off.
    let edge = TxBlock { tx_bo: bo(15, 2), frame_x: 15, ..b };
    assert_eq!(encode_tx_block(&edge)[0], TxBlockStep::ZeroResidual);
    assert_eq!(edge.finish(1)[0], TxBlockStep::WriteCoeffs { width: 4, height: 8 });
    // Outside the tile nothing is asked of the block.
    let outside = TxBlock { tx_bo: bo(16, 2), frame_x: 99, w_in_b: 1, ..b };
    assert!(encode_tx_block(&outside).is_empty());
    let intra = TxBlock { mode: PredictionMode::D45_PRED, skip: true, ..b };
    assert_eq!(encode_tx_block(&intra), vec![TxBlockStep::EdgeFilter, TxBlockStep::PredictIntra]);
    let est = TxBlock {
        rdo_type: RDOType::TxDistEstRate,
        need_recon_pixel: false,
        use_tx_domain_distortion: true,
        ..b
    };
    assert_eq!(
        est.finish(5),
        vec![TxBlockStep::Dequantize, TxBlockStep::TxDistortion, TxBlockStep::EstimateRate]
    );
    assert!(RDOType::TxDistRealRate.needs_tx_dist() && RDOType::TxDistRealRate.needs_coeff_rate());
    assert!(!RDOType::TxDistEstRate.needs_coeff_rate() && !RDOType::PixelDistRealRate.needs_tx_dist());
}

#[test]
fn results_of_a_transform_block() {
    let b = tx_block();
    // The distortion of samples is measured elsewhere.
    assert_eq!(tx_block_result(&b, true, 77), (true, 0));
    assert_eq!(tx_block_result(&b, false, 77), (false, 0));
    let real = TxBlock { rdo_type: RDOType::TxDistRealRate, ..b };
    assert_eq!(tx_block_result(&real, false, 77), (false, 77));
    // Without its coefficients written the block counts as one that has some.
    let est = TxBlock { rdo_type: RDOType::TxDistEstRate, need_recon_pixel: false, ..b };
    assert_eq!(tx_block_result(&est, false, 77), (true, 77));
    let hidden = TxBlock { tx_bo: bo(15, 2), frame_x: 15, ..real };
    assert_eq!(tx_block_result(&hidden, true, 77), (true, 0));
    let outside = TxBlock { tx_bo: bo(2, 16), frame_y: 99, ..real };
    assert_eq!(tx_block_result(&outside, true, 77), (false, 0));
    let skipped = TxBlock { skip: true, ..real };
    assert_eq!(tx_block_result(&skipped, true, 77), (false, 0));
    let trial = TxBlock { counts_only: true, ..real };
    assert_eq!(trial.observed_rate(true, 40, 100), Some(60));
    assert_eq!(trial.observed_rate(true, 100, 40), Some(0));
    assert_eq!(trial.observed_rate(false, 40, 100), None);
    assert_eq!(real.observed_rate(true, 40, 100), None);
    assert_eq!(TxBlock { skip: true, ..trial }.observed_rate(true, 40, 100), None);
    assert_eq!(
        TxBlock { rdo_type: RDOType::PixelDistRealRate, ..trial }.observed_rate(true, 40, 100),
        None
    );
}

#[test]
fn results_of_a_residual() {
    let results = [(false, 3), (true, 4)];
    assert_eq!(tx_blocks_result(false, None, &results), (true, 7));
    assert_eq!(tx_blocks_result(false, Some(LumaReuse::new()), &results[..1]), (false, 3));
    let hit = LumaReuse { cached: Some((8, 9, true)) };
    assert_eq!(tx_blocks_result(false, Some(hit), &results[..1]), (true, 12));
    // A skipped block has neither coefficients nor distortion.
    assert_eq!(tx_blocks_result(true, None, &[(false, 0); 6]), (false, 0));
    assert_eq!(tx_blocks_result(true, Some(hit), &[(false, 0); 2]), (true, 9));
    assert_eq!(cache_luma(16, 40, &results).cached, Some((24, 7, true)));
    assert_eq!(cache_luma(16, 16, &[]).cached, Some((0, 0, false)));
}

#[test]
fn distortion_of_coefficients() {
    assert_eq!(get_log_tx_scale(TxSize::TX_16X16), 0);
    assert_eq!(get_log_tx_scale(TxSize::TX_16X32), 1);
    assert_eq!(get_log_tx_scale(TxSize::TX_64X64), 2);
    // (12^2 + 4^2 + 32) / 64, and the third coefficient was dropped.
    assert_eq!(raw_tx_distortion(&[20, -3, 7], &[8, -3, 3], TxSize::TX_4X4), 3);
    assert_eq!(raw_tx_distortion(&[20, -3, 40], &[8, -3], TxSize::TX_4X4), 27);
    assert_eq!(raw_tx_distortion(&[30000], &[29990], TxSize::TX_64X64), 25);
    assert_eq!(raw_tx_distortion(&[6], &[0], TxSize::TX_32X32), 2);
    assert_eq!(clip_visible_bsize(60, 60, BlockSize::BLOCK_16X16, 48, 56), (12, 4));
    assert_eq!(clip_visible_bsize(60, 60, BlockSize::BLOCK_16X16, 60, 0), (0, 16));
    assert_eq!(combine_results(&[(false, 3), (true, 4), (false, 0)]), (true, 7));
    assert_eq!(combine_results(&[]), (false, 0));
}

#[test]
fn differences_of_windows() {
    let mut a: Plane<u8> = Plane::new(8, 8, 0, 0, 0, 0);
    let mut b: Plane<u8> = Plane::new(8, 8, 0, 0, 0, 0);
    a.set(2, 3, 250);
    b.set(3, 3, 9);
    let r = diff(&PlaneRegion::new(&a, 2, 3, 3, 2), &PlaneRegion::new(&b, 2, 3, 3, 2));
    assert_eq!(r, vec![250, -9, 0, 0, 0, 0]);
}

fn residual(bsize: BlockSize, at: TileBlockOffset, tx_size: TxSize, mode: PredictionMode) -> ResidualBlock {
    ResidualBlock {
        bo: at,
        bsize,
        mi_width: 16,
        mi_height: 16,
        xdec: 1,
        ydec: 1,
        chroma_sampling: ChromaSampling::Cs420,
        luma_mode: mode,
        chroma_mode: mode,
        tx_size,
        tx_type: TxType::ADST_DCT,
        dc_delta_q: [1, 2, 3],
        ac_delta_q: [4, 5, 6],
        luma_only: false,
    }
}

fn calls(steps: &[ResidualStep]) -> Vec<(usize, usize, usize, usize, usize)> {
    steps
        .iter()
        .filter_map(|s| match s {
            ResidualStep::Encode(c) => Some((c.plane, c.tx_bo.x, c.tx_bo.y, c.x, c.y)),
            _ => None,
        })
        .collect()
}

#[test]
fn transforms_of_an_intra_block() {
    let b = residual(BlockSize::BLOCK_16X16, bo(12, 12), TxSize::TX_8X8, PredictionMode::V_PRED);
    let steps = write_tx_blocks(&b, 50, false, None);
    assert_eq!(
        calls(&steps),
        vec![
            (0, 12, 12, 48, 48),
            (0, 14, 12, 56, 48),
            (0, 12, 14, 48, 56),
            (0, 14, 14, 56, 56),
            (1, 12, 12, 24, 24),
            (2, 12, 12, 24, 24),
        ]
    );
    assert_eq!(
        steps[0],
        ResidualStep::UpdateQuantizer {
            plane: 0,
            tx_size: TxSize::TX_8X8,
            is_intra: true,
            dc_delta_q: 1,
            ac_delta_q: 0,
        }
    );
    match steps[6] {
        ResidualStep::Encode(c) => {
            assert_eq!(c.tx_type, TxType::ADST_DCT);
            assert_eq!(c.tx_size, TxSize::TX_8X8);
        }
        _ => panic!("the first chroma transform"),
    }
    // Cached luma is taken over; a first trial fills the cache.
    let hit = LumaReuse { cached: Some((8, 9, true)) };
    let steps = write_tx_blocks(&b, 50, false, Some(hit));
    assert_eq!(steps[1], ResidualStep::ReuseLuma);
    assert_eq!(calls(&steps).len(), 2);
    let steps = write_tx_blocks(&b, 50, false, Some(LumaReuse::new()));
    assert_eq!(steps[5], ResidualStep::CacheLuma);
}

#[test]
fn steps_of_a_residual_give_transform_blocks() {
    let b = residual(BlockSize::BLOCK_16X16, bo(12, 12), TxSize::TX_16X16, PredictionMode::V_PRED);
    let at = TxPlace {
        mi_width: 16,
        mi_height: 16,
        tile_x: 32,
        tile_y: 16,
        width: 400,
        height: 300,
        w_in_b: 100,
        h_in_b: 76,
        xdec: 1,
        ydec: 1,
        bsize: b.bsize,
        enable_intra_edge_filter: false,
        rdo_type: RDOType::TxDistRealRate,
        need_recon_pixel: true,
        use_tx_domain_distortion: true,
        trellis: false,
        counts_only: true,
    };
    let blocks: Vec<TxBlock> = write_tx_blocks(&b, 50, false, None)
        .iter()
        .filter_map(|s| match s {
            ResidualStep::Encode(c) => Some(c.block(&at, false)),
            _ => None,
        })
        .collect();
    assert_eq!(blocks.len(), 3);
    assert_eq!((blocks[0].xdec, blocks[0].ydec, blocks[0].tx_size), (0, 0, TxSize::TX_16X16));
    assert_eq!((blocks[0].frame_x, blocks[0].frame_y), (44, 28));
    assert_eq!((blocks[1].xdec, blocks[1].ydec, blocks[1].tx_size), (1, 1, TxSize::TX_8X8));
    assert_eq!(blocks[2].tx_type, TxType::ADST_DCT);
    for t in &blocks {
        assert_eq!(
            encode_tx_block(t),
            vec![
                TxBlockStep::PredictIntra,
                TxBlockStep::Diff,
                TxBlockStep::ForwardTransform,
                TxBlockStep::Quantize
            ]
        );
        assert_eq!(tx_block_result(t, true, 5), (true, 5));
        assert_eq!(tx_block_result(&TxBlock { skip: true, ..*t }, true, 5), (false, 0));
    }
}

#[test]
fn transforms_outside_the_tile_are_left_out() {
    let b = residual(BlockSize::BLOCK_16X16, bo(14, 12), TxSize::TX_8X8, PredictionMode::DC_PRED);
    assert_eq!(
        calls(&write_tx_blocks(&ResidualBlock { luma_only: true, ..b }, 50, false, None)),
        vec![(0, 14, 12, 56, 48), (0, 14, 14, 56, 56)]
    );
}

#[test]
fn chroma_of_the_smallest_blocks_belongs_to_the_last() {
    // The last of four 4x4 blocks carries the chroma of all.
    let b = residual(BlockSize::BLOCK_4X4, bo(5, 5), TxSize::TX_4X4, PredictionMode::DC_PRED);
    assert_eq!(
        calls(&write_tx_blocks(&b, 50, false, None)),
        vec![(0, 5, 5, 20, 20), (1, 4, 4, 8, 8), (2, 4, 4, 8, 8)]
    );
    let b = residual(BlockSize::BLOCK_4X4, bo(4, 5), TxSize::TX_4X4, PredictionMode::DC_PRED);
    assert_eq!(calls(&write_tx_blocks(&b, 50, false, None)), vec![(0, 4, 5, 16, 20)]);
}

#[test]
fn transforms_of_an_inter_block() {
    let b = residual(BlockSize::BLOCK_64X64, bo(0, 0), TxSize::TX_32X32, PredictionMode::NEWMV);
    assert_eq!(calls(&write_tx_tree(&b, false)).len(), 4);
    assert!(write_tx_tree(&b, true).is_empty());
    let uv = write_tx_tree_chroma(&b, false, true, TxType::IDTX);
    assert_eq!(calls(&uv), vec![(1, 0, 0, 0, 0), (2, 0, 0, 0, 0)]);
    assert_eq!(
        uv[0],
        ResidualStep::UpdateQuantizer {
            plane: 1,
            tx_size: TxSize::TX_32X32,
            is_intra: false,
            dc_delta_q: 2,
            ac_delta_q: 5,
        }
    );
    match uv[1] {
        ResidualStep::Encode(c) => assert_eq!(c.tx_type, TxType::IDTX),
        _ => panic!("a chroma transform"),
    }
    match write_tx_tree_chroma(&b, false, false, TxType::IDTX)[1] {
        ResidualStep::Encode(c) => assert_eq!(c.tx_type, TxType::DCT_DCT),
        _ => panic!("a chroma transform"),
    }
    assert!(write_tx_tree_chroma(&b, true, true, TxType::IDTX).is_empty());
    assert_eq!(largest_chroma_tx_size(BlockSize::BLOCK_64X64, 0, 0), TxSize::TX_32X32);
    assert_eq!(largest_chroma_tx_size(BlockSize::BLOCK_8X16, 1, 1), TxSize::TX_4X8);
}

#[test]
fn quick_costs() {
    let stack = [candidate(mv(1, 2), ZERO, 0)];
    assert_eq!(pd0_candidates(&stack), [mv(1, 2), ZERO]);
    assert_eq!(pd0_candidates(&[]), [ZERO; 2]);
    let m = pd0_motion(&stack, None);
    assert_eq!((m.mode, m.mv, m.pmv), (PredictionMode::NEARESTMV, mv(1, 2), mv(1, 2)));
    let m = pd0_motion(&stack, Some(mv(8, 8)));
    assert_eq!((m.mode, m.mv, m.pmv), (PredictionMode::NEWMV, mv(8, 8), mv(1, 2)));
    assert_eq!(pd0_block_rate(PredictionMode::NEWMV, 10), 112);
    assert_eq!(pd0_block_rate(PredictionMode::NEARESTMV, 10), 32);
    assert_eq!(pd0_totals(112, &[(5, 1000), (6, 24)]), (123, 1024));
    assert_eq!(pd0_totals(3, &[(1 << 32, 1)]), (3, 1));
    assert_eq!(pd0_totals(32, &[]), (32, 0));
    let steps =
        pd0_real_cost(bo(0, 0), BlockSize::BLOCK_64X64, 16, 8, true, PredictionMode::NEWMV, 7, 9);
    assert_eq!(
        steps[0],
        ResidualStep::UpdateQuantizer {
            plane: 0,
            tx_size: TxSize::TX_32X32,
            is_intra: false,
            dc_delta_q: 7,
            ac_delta_q: 9,
        }
    );
    assert_eq!(calls(&steps), vec![(0, 0, 0, 0, 0), (0, 8, 0, 32, 0)]);
    assert!(pd0_real_cost(bo(16, 0), BlockSize::BLOCK_8X8, 16, 8, true, PredictionMode::NEWMV, 0, 0)
        .is_empty());
}

fn inter_block(v: MotionVector) -> Block {
    Block {
        mode: PredictionMode::NEWMV,
        bsize: BlockSize::BLOCK_4X4,
        n4_w: 1,
        n4_h: 1,
        skip: false,
        ref_frames: [RefType::GOLDEN_FRAME, RefType::NONE_FRAME],
        mv: [v, ZERO],
    }
}

fn rects(p: &[InterPrediction]) -> Vec<(usize, usize, usize, usize, usize, MotionVector)> {
    p.iter().map(|p| (p.plane, p.x, p.y, p.width, p.height, p.mvs[0])).collect()
}

#[test]
fn chroma_of_small_blocks_is_predicted_piece_by_piece() {
    let mut blocks = TileBlocks { data: Vec::new(), cols: 4, rows: 4 };
    for i in 0..16 {
        blocks.data.push(inter_block(mv(i, i)));
    }
    let b = InterBlock {
        bsize: BlockSize::BLOCK_4X4,
        bo: bo(1, 1),
        ref_frames: [RefType::LAST_FRAME, RefType::NONE_FRAME],
        mvs: [mv(99, 99), ZERO],
    };
    let p = motion_compensate(&blocks, &b, 1, 1, ChromaSampling::Cs420, false);
    assert_eq!(
        rects(&p[..5]),
        vec![
            (0, 4, 4, 4, 4, mv(99, 99)),
            (1, 0, 0, 2, 2, mv(0, 0)),
            (1, 2, 0, 2, 2, mv(1, 1)),
            (1, 0, 2, 2, 2, mv(4, 4)),
            (1, 2, 2, 2, 2, mv(99, 99)),
        ]
    );
    assert_eq!(p.len(), 9);
    assert_eq!(p[1].ref_frames[0], RefType::GOLDEN_FRAME);
    assert_eq!(p[4].ref_frames[0], RefType::LAST_FRAME);
    // A neighbour without motion: the block's own is used for all.
    blocks.data[0].mode = PredictionMode::DC_PRED;
    blocks.data[0].ref_frames[0] = RefType::INTRA_FRAME;
    let p = motion_compensate(&blocks, &b, 1, 1, ChromaSampling::Cs420, false);
    assert_eq!(rects(&p[1..]), vec![(1, 0, 0, 4, 4, mv(99, 99)), (2, 0, 0, 4, 4, mv(99, 99))]);
    let p = motion_compensate(&blocks, &b, 1, 1, ChromaSampling::Cs420, true);
    assert_eq!(p.len(), 1);
    let large = InterBlock { bsize: BlockSize::BLOCK_8X8, bo: bo(2, 2), ..b };
    let p = motion_compensate(&blocks, &large, 1, 1, ChromaSampling::Cs420, false);
    assert_eq!(
        rects(&p),
        vec![
            (0, 8, 8, 8, 8, mv(99, 99)),
            (1, 4, 4, 4, 4, mv(99, 99)),
            (2, 4, 4, 4, 4, mv(99, 99)),
        ]
    );
}

#[test]
fn motion_is_saved_inside_the_tile() {
    let mut g = TileGrid { data: vec![ZERO; 12], cols: 4, rows: 3 };
    save_block_motion(&mut g, BlockSize::BLOCK_8X8, bo(3, 1), mv(5, 6));
    let set: Vec<usize> = (0..12).filter(|&i| g.data[i] == mv(5, 6)).collect();
    assert_eq!(set, vec![7, 11]);
}

fn search(bsize: BlockSize, at: TileBlockOffset) -> SearchBlock {
    SearchBlock {
        bsize,
        bo: at,
        mi_width: 24,
        mi_height: 24,
        range: PartitionRange { min: BlockSize::BLOCK_8X8, max: BlockSize::BLOCK_64X64 },
        has_inter: true,
        chroma_sampling: ChromaSampling::Cs420,
        non_square_max: BlockSize::BLOCK_8X8,
    }
}

#[test]
fn which_partitions_are_tried() {
    let b = search(BlockSize::BLOCK_32X32, bo(0, 0));
    assert!(!b.is_must_split() && b.is_can_split() && !b.is_outside());
    assert_eq!(b.partition_types().to_vec(), vec![PartitionType::PARTITION_SPLIT]);
    let all = SearchBlock { non_square_max: BlockSize::BLOCK_32X32, ..b };
    assert_eq!(
        all.partition_types().to_vec(),
        vec![
            PartitionType::PARTITION_HORZ,
            PartitionType::PARTITION_VERT,
            PartitionType::PARTITION_SPLIT
        ]
    );
    let cs422 = SearchBlock { chroma_sampling: ChromaSampling::Cs422, ..all };
    assert_eq!(
        cs422.partition_types().to_vec(),
        vec![PartitionType::PARTITION_HORZ, PartitionType::PARTITION_SPLIT]
    );
    // Half of the block lies past the right edge.
    let edge = search(BlockSize::BLOCK_64X64, bo(16, 0));
    assert!(edge.is_must_split());
    assert_eq!(
        edge.partition_types().to_vec(),
        vec![PartitionType::PARTITION_VERT, PartitionType::PARTITION_SPLIT]
    );
    assert!(search(BlockSize::BLOCK_8X8, bo(24, 0)).is_outside());
    assert!(!search(BlockSize::BLOCK_8X8, bo(0, 0)).is_can_split());
    let small = SearchBlock {
        range: PartitionRange { min: BlockSize::BLOCK_4X4, max: BlockSize::BLOCK_64X64 },
        ..search(BlockSize::BLOCK_8X8, bo(0, 0))
    };
    assert!(small.is_can_split());
    assert!(!SearchBlock { chroma_sampling: ChromaSampling::Cs444, ..small }.is_can_split());
}

#[test]
fn the_bottom_up_search_keeps_the_cheapest() {
    let b = SearchBlock { non_square_max: BlockSize::BLOCK_16X16, ..search(BlockSize::BLOCK_16X16, bo(0, 0)) };
    let mut s = BottomUp::new(b, true, u64::MAX);
    assert_eq!(s.step(SearchEvent::Begin), SearchAction::CodeWhole { signal: true, encode: false });
    assert_eq!(
        s.step(SearchEvent::WholeCoded { cost: 100, modes: "whole" }),
        SearchAction::Try { partition: PartitionType::PARTITION_HORZ, signal: true }
    );
    assert_eq!(
        s.step(SearchEvent::Signalled { cost: 5 }),
        SearchAction::CodePart { offset: bo(0, 0), bound: 100 }
    );
    assert_eq!(
        s.step(SearchEvent::PartCoded { cost: 40, part_modes: Some("upper") }),
        SearchAction::CodePart { offset: bo(0, 2), bound: 100 }
    );
    assert_eq!(
        s.step(SearchEvent::PartCoded { cost: 80, part_modes: Some("lower") }),
        SearchAction::Try { partition: PartitionType::PARTITION_VERT, signal: true }
    );
    assert_eq!(
        s.step(SearchEvent::Signalled { cost: 5 }),
        SearchAction::CodePart { offset: bo(0, 0), bound: 80 }
    );
    // This candidate cannot win any more.
    assert_eq!(
        s.step(SearchEvent::PartCoded { cost: 80, part_modes: Some("left") }),
        SearchAction::Try { partition: PartitionType::PARTITION_SPLIT, signal: true }
    );
    s.step(SearchEvent::Signalled { cost: 5 });
    s.step(SearchEvent::PartCoded { cost: 20, part_modes: None });
    s.step(SearchEvent::PartFailed);
    s.step(SearchEvent::PartCoded { cost: 30, part_modes: None });
    assert_eq!(s.step(SearchEvent::PartCoded { cost: 60, part_modes: None }), SearchAction::Stop);
    let r = s.finish();
    assert_eq!((r.partition, r.cost), (PartitionType::PARTITION_SPLIT, 60));
    assert_eq!(r.subsize, BlockSize::BLOCK_8X8);
    assert!(!r.recode && !r.signal && !r.update_context && !r.keep_modes);
}

#[test]
fn the_winners_modes_are_encoded_again() {
    let b = SearchBlock { non_square_max: BlockSize::BLOCK_16X16, ..search(BlockSize::BLOCK_16X16, bo(0, 0)) };
    let run = |halves: u64, quarters: u64| -> (PartitionType, bool, Vec<&'static str>) {
        let mut s = BottomUp::new(b, false, u64::MAX);
        s.step(SearchEvent::Begin);
        s.step(SearchEvent::WholeCoded { cost: 100, modes: "whole" });
        for parts in [["upper", "lower"], ["left", "right"]] {
            s.step(SearchEvent::Signalled { cost: 1 });
            s.step(SearchEvent::PartCoded { cost: 2, part_modes: Some(parts[0]) });
            s.step(SearchEvent::PartCoded { cost: halves, part_modes: Some(parts[1]) });
        }
        s.step(SearchEvent::Signalled { cost: 1 });
        for cost in [2, 3, 4, quarters] {
            s.step(SearchEvent::PartCoded { cost, part_modes: Some("quarter") });
        }
        let r = s.finish();
        // From 8x8 on the partition is written before the modes.
        assert_eq!(r.signal, r.recode);
        (r.partition, r.recode, s.modes())
    };
    // On a tie the halves that came first win.
    assert_eq!(run(90, 95), (PartitionType::PARTITION_HORZ, true, vec!["upper", "lower"]));
    assert_eq!(run(100, 100), (PartitionType::PARTITION_NONE, true, vec!["whole"]));
    // The quarters were coded by themselves and are not encoded again.
    let (p, recode, _) = run(90, 80);
    assert_eq!((p, recode), (PartitionType::PARTITION_SPLIT, false));
}

#[test]
fn a_search_without_a_choice() {
    let mut s = BottomUp::new(search(BlockSize::BLOCK_8X8, bo(0, 0)), true, 50);
    assert_eq!(s.step(SearchEvent::Begin), SearchAction::CodeWhole { signal: true, encode: true });
    assert_eq!(s.step(SearchEvent::WholeCoded { cost: 70, modes: 7 }), SearchAction::Stop);
    let r = s.finish();
    assert_eq!((r.partition, r.cost), (PartitionType::PARTITION_NONE, 70));
    assert!(!r.recode && !r.signal && r.update_context && r.keep_modes);
    assert_eq!(s.modes(), vec![7]);
    let mut s: BottomUp<u8> = BottomUp::new(search(BlockSize::BLOCK_8X8, bo(30, 0)), true, 50);
    assert_eq!(s.step(SearchEvent::Begin), SearchAction::Stop);
    // A block past the edge is not tried whole, and only its parts inside are coded.
    let mut s: BottomUp<u8> =
        BottomUp::new(search(BlockSize::BLOCK_64X64, bo(16, 16)), true, u64::MAX);
    assert_eq!(
        s.step(SearchEvent::Begin),
        SearchAction::Try { partition: PartitionType::PARTITION_SPLIT, signal: true }
    );
    assert_eq!(
        s.step(SearchEvent::Signalled { cost: 1 }),
        SearchAction::CodePart { offset: bo(16, 16), bound: u64::MAX }
    );
    assert_eq!(s.step(SearchEvent::PartCoded { cost: 9, part_modes: None }), SearchAction::Stop);
    assert_eq!(s.finish().partition, PartitionType::PARTITION_SPLIT);
}

#[test]
fn from_the_top_down() {
    let b = search(BlockSize::BLOCK_64X64, bo(0, 0));
    let none = TopdownChoice::Decided(PartitionType::PARTITION_NONE);
    let split = TopdownChoice::Decided(PartitionType::PARTITION_SPLIT);
    let node = |variance| Some(NodeVariance { variance, threshold: 10 });
    assert_eq!(choose_topdown(&b, None, false, false), TopdownChoice::Search);
    assert_eq!(choose_topdown(&b, None, false, true), TopdownChoice::ProbeSkip);
    assert_eq!(choose_topdown(&b, None, true, true), TopdownChoice::Search);
    assert_eq!(choose_topdown(&b, node(11), false, true), split);
    assert_eq!(choose_topdown(&b, node(10), false, true), none);
    let small = search(BlockSize::BLOCK_8X8, bo(0, 0));
    assert_eq!(choose_topdown(&small, node(1 << 40), false, false), none);
    assert_eq!(choose_topdown(&small, None, false, false), none);
    assert_eq!(choose_topdown(&search(BlockSize::BLOCK_64X64, bo(16, 0)), node(0), false, false), split);
    assert_eq!(
        choose_topdown(&search(BlockSize::BLOCK_8X8, bo(0, 24)), None, false, false),
        TopdownChoice::Outside
    );
    let p = plan_topdown(&b, PartitionType::PARTITION_SPLIT, false);
    assert!(p.signal && !p.code_whole && !p.recurse_modes && !p.update_context);
    assert_eq!(p.subsize, BlockSize::BLOCK_32X32);
    assert_eq!(p.recurse_parts.to_vec(), vec![bo(0, 0), bo(8, 0), bo(0, 8), bo(8, 8)]);
    let p = plan_topdown(&b, PartitionType::PARTITION_SPLIT, true);
    assert!(p.recurse_modes && p.recurse_parts.is_empty());
    let p = plan_topdown(&b, PartitionType::PARTITION_NONE, false);
    assert!(p.code_whole && p.decide_modes && p.update_context);
    let p = plan_topdown(&small, PartitionType::PARTITION_SPLIT, false);
    assert!(p.update_context);
}

#[test]
fn which_variance_tree_divides_a_block() {
    let lo = Some(VarpartDispatch { thresh: 50, route_hi: false, split_t: 7 });
    let root = search(BlockSize::BLOCK_64X64, bo(0, 0));
    let part = search(BlockSize::BLOCK_32X32, bo(0, 0));
    assert!(builds_variance_tree(&root, false, lo, None) && builds_variance_tree(&root, false, None, Some(0)));
    assert!(!builds_variance_tree(&root, false, None, None));
    assert!(!builds_variance_tree(&root, true, lo, None));
    assert!(!builds_variance_tree(&part, false, lo, None));
    assert_eq!(variance_source(false, lo, Some(50)), VarianceSource::Own);
    assert_eq!(variance_source(false, lo, Some(51)), VarianceSource::Nothing);
    assert_eq!(variance_source(false, None, Some(1 << 40)), VarianceSource::Own);
    assert_eq!(variance_source(true, lo, None), VarianceSource::Inherited);
    assert_eq!(variance_source(false, lo, None), VarianceSource::Nothing);
    // One column of 200 in a picture of 100: only the squares that it crosses vary.
    let mut p: Plane<u8> = Plane::new(64, 64, 0, 0, 0, 0);
    for y in 0..64 {
        for x in 0..64 {
            p.set(x, y, if x == 40 { 200 } else { 100 });
        }
    }
    let tree = build_var_tree(&PlaneRegion::new(&p, 0, 0, 64, 64), None, 64, 64);
    let node = |bsize, at| node_of(&search(bsize, at), &tree, lo, Some(3));
    let n = node(BlockSize::BLOCK_32X32, bo(8, 0));
    assert_eq!(n.threshold, 7);
    assert_eq!(n.variance, tree.node_variance(32, 32, 0));
    assert!(n.variance > 0);
    assert_eq!(node(BlockSize::BLOCK_32X32, bo(0, 0)).variance, 0);
    assert_eq!(node(BlockSize::BLOCK_16X16, bo(24, 8)).variance, tree.node_variance(16, 32, 32));
    assert_eq!(node(BlockSize::BLOCK_8X8, bo(10, 0)).variance, 0);
    assert_eq!(node_of(&search(BlockSize::BLOCK_64X64, bo(0, 0)), &tree, None, None).threshold, i64::MAX);
}

#[test]
fn a_skip_probe_decides_or_leaves_the_search() {
    let none = TopdownChoice::Decided(PartitionType::PARTITION_NONE);
    assert_eq!(follow_probe(vec![], Some("skipped")), (none, vec!["skipped"]));
    assert_eq!(follow_probe(vec!["known"], None), (TopdownChoice::Search, vec!["known"]));
}

#[test]
fn parameters_of_intra_predictions() {
    let angle = AngleDelta { y: -2, uv: 3 };
    let alpha = [-16, 9];
    let params = |steps: Vec<ResidualStep>| -> Vec<(usize, IntraParam)> {
        steps
            .iter()
            .filter_map(|s| match s {
                ResidualStep::Encode(c) => Some((c.plane, c.intra_param(angle, alpha))),
                _ => None,
            })
            .collect()
    };
    let b = residual(BlockSize::BLOCK_16X16, bo(12, 12), TxSize::TX_16X16, PredictionMode::V_PRED);
    assert_eq!(
        params(write_tx_blocks(&b, 50, false, None)),
        vec![(0, IntraParam::AngleDelta(-2)), (1, IntraParam::AngleDelta(3)), (2, IntraParam::AngleDelta(3))]
    );
    let cfl = ResidualBlock { chroma_mode: PredictionMode::UV_CFL_PRED, ..b };
    assert_eq!(
        params(write_tx_blocks(&cfl, 50, false, None)),
        vec![(0, IntraParam::AngleDelta(-2)), (1, IntraParam::Alpha(-16)), (2, IntraParam::Alpha(9))]
    );
    let inter = residual(BlockSize::BLOCK_16X16, bo(12, 12), TxSize::TX_16X16, PredictionMode::NEWMV);
    let chroma = write_tx_tree_chroma(&inter, false, true, TxType::DCT_DCT);
    assert_eq!(params(chroma), vec![(1, IntraParam::AngleDelta(-2)), (2, IntraParam::AngleDelta(-2))]);
}

#[test]
fn dispatch_by_variance() {
    let lo = VarpartDispatch { thresh: 50, route_hi: false, split_t: 7 };
    let hi = VarpartDispatch { route_hi: true, ..lo };
    assert_eq!(varpart_split_threshold(Some(lo), Some(3)), 7);
    assert_eq!(varpart_split_threshold(None, Some(3)), 3);
    assert_eq!(varpart_split_threshold(None, None), i64::MAX);
    assert!(!varpart_sb_active(None, None));
    assert!(varpart_sb_active(Some(lo), None) && varpart_sb_active(None, Some(0)));
    assert!(varpart_route_sb(None, 1 << 40));
    assert!(varpart_route_sb(Some(lo), 50) && !varpart_route_sb(Some(lo), 51));
    assert!(varpart_route_sb(Some(hi), 50) && !varpart_route_sb(Some(hi), 49));
    assert_eq!(variance_node(&search(BlockSize::BLOCK_16X16, bo(20, 8))), (16, 16, 32));
}
