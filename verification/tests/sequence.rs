use rusty_av1e::encoder::frame::{
    pos_to_lvl, update_rec_buffer, CDEFSearchMethod, CdefFit, DeblockState, FrameConfig,
    FrameInvariants, FramePosition,
    FrameState, FrameType, GlobalMVMode, GrainSegment, InterConfig, QuantizerIndices, ReferenceMode,
    ALL_REF_FRAMES_MASK, PRIMARY_REF_NONE,
};
use rusty_av1e::encoder::partition_search::PartitionRange;
use rusty_av1e::encoder::segmentation::{
    get_qidx, scales_name, threshold_name, CodedFrameData, DistortionScale, Scales, SegmentationState,
};
use rusty_av1e::encoder::sequence::{
    bits_needed, ChromaSamplePosition, PixelRange, Rational, Sequence, SequenceConfig, TileSearch,
    TileStep, TilingInfo, Tune,
};
use rusty_av1e::mc::FilterMode;
use rusty_av1e::partition::{BlockSize, ChromaSampling};
use rusty_av1e::plane::{Frame, Plane};
use std::sync::Arc;

fn tiling() -> TilingInfo {
    TilingInfo {
        tile_width_sb: 6,
        tile_height_sb: 5,
        cols: 1,
        rows: 1,
        tile_cols_log2: 0,
        tile_rows_log2: 0,
        max_tile_cols_log2: 2,
        max_tile_rows_log2: 2,
        sb_size_log2: 6,
    }
}

fn config() -> SequenceConfig {
    SequenceConfig {
        width: 352,
        height: 288,
        time_base: Rational { num: 1, den: 30 },
        bit_depth: 8,
        chroma_sampling: ChromaSampling::Cs420,
        chroma_sample_position: ChromaSamplePosition::Unknown,
        pixel_range: PixelRange::Limited,
        color_description: None,
        mastering_display: None,
        content_light: None,
        level_idx: None,
        enable_timing_info: false,
        still_picture: false,
        tiles: 0,
        film_grain_entries: None,
        cdef: true,
        lrf: true,
    }
}

fn frame_config() -> FrameConfig {
    FrameConfig {
        width: 352,
        height: 288,
        render_width: 352,
        render_height: 288,
        tune: Tune::Psychovisual,
        quantizer: 100,
        reduced_tx_set: false,
        tx_domain_rate: false,
        tx_domain_distortion: true,
        rdo_tx_decision: true,
        enable_inter_tx_split: true,
        partition_range: PartitionRange { min: BlockSize::BLOCK_8X8, max: BlockSize::BLOCK_64X64 },
        segmentation: true,
        txrate: false,
        no_early_exit: false,
    }
}

#[test]
fn sequence_settings() {
    let s = Sequence::new(&config(), tiling());
    assert_eq!((s.num_bits_width, s.num_bits_height), (9, 9));
    assert_eq!(s.profile, 0);
    assert_eq!(s.level_idx, [31; 32]);
    assert!(s.enable_cdef && s.enable_restoration && s.enable_order_hint);
    assert_eq!(s.order_hint_bits_minus_1, 5);
    assert_eq!(s.force_screen_content_tools, 0);
    let small = SequenceConfig { width: 31, level_idx: Some(8), film_grain_entries: Some(2), ..config() };
    let s = Sequence::new(&small, tiling());
    assert!(!s.enable_cdef && !s.enable_restoration);
    assert_eq!(s.level_idx, [8; 32]);
    assert!(s.film_grain_params_present);
    let still = SequenceConfig { still_picture: true, film_grain_entries: Some(0), ..config() };
    let s = Sequence::new(&still, tiling());
    assert_eq!(s.force_screen_content_tools, 2);
    assert!(s.reduced_still_picture_hdr && !s.enable_order_hint && !s.film_grain_params_present);
    for (bits, cs, profile) in [
        (8, ChromaSampling::Cs444, 1),
        (10, ChromaSampling::Cs422, 2),
        (12, ChromaSampling::Cs420, 2),
        (10, ChromaSampling::Cs400, 0),
    ] {
        let c = SequenceConfig { bit_depth: bits, chroma_sampling: cs, ..config() };
        assert_eq!(Sequence::new(&c, tiling()).profile, profile);
    }
    assert_eq!(bits_needed(0), 0);
    assert_eq!(bits_needed(65535), 16);
    assert_eq!(Sequence::sb_size_log2(false), 6);
    assert_eq!(Sequence::sb_size_log2(true), 7);
}

#[test]
fn distances_between_order_hints() {
    let s = Sequence::new(&config(), tiling());
    // Hints count modulo 64.
    assert_eq!(s.get_relative_dist(5, 5), 0);
    assert_eq!(s.get_relative_dist(7, 5), 2);
    assert_eq!(s.get_relative_dist(5, 7), -2);
    assert_eq!(s.get_relative_dist(1, 63), 2);
    assert_eq!(s.get_relative_dist(63, 1), -2);
    assert_eq!(s.get_relative_dist(32, 0), -32);
    assert_eq!(s.get_relative_dist(31, 0), 31);
}

#[test]
fn skip_mode_needs_two_useful_references() {
    let s = Sequence::new(&config(), tiling());
    let allowed = |hints: &[Option<u32>]| s.get_skip_mode_allowed(false, 8, hints, true);
    assert!(allowed(&[Some(4), Some(12)]));
    assert!(allowed(&[Some(4), Some(6), None]));
    assert!(!allowed(&[Some(4), Some(4)]));
    assert!(!allowed(&[Some(12), Some(10)]));
    assert!(!allowed(&[None, Some(4)]));
    assert!(!s.get_skip_mode_allowed(true, 8, &[Some(4), Some(12)], true));
    assert!(!s.get_skip_mode_allowed(false, 8, &[Some(4), Some(12)], false));
    let still = Sequence::new(&SequenceConfig { still_picture: true, ..config() }, tiling());
    assert!(!still.get_skip_mode_allowed(false, 8, &[Some(4), Some(12)], true));
}

#[test]
fn tile_search_cuts_the_longer_side() {
    let mut s = TileSearch::new();
    assert_eq!(s.next(&tiling(), 0), TileStep::Done);
    // The first question is for a single tile.
    assert_eq!(s.next(&tiling(), 4), TileStep::Ask { tile_cols_log2: 0, tile_rows_log2: 0 });
    // The tile is wider than high, so columns are cut.
    assert_eq!(s.next(&tiling(), 4), TileStep::Ask { tile_cols_log2: 1, tile_rows_log2: 0 });
    let t = TilingInfo { tile_width_sb: 3, cols: 2, tile_cols_log2: 1, ..tiling() };
    assert_eq!(s.next(&t, 4), TileStep::Ask { tile_cols_log2: 1, tile_rows_log2: 1 });
    let t = TilingInfo { rows: 2, tile_rows_log2: 1, tile_height_sb: 3, ..t };
    assert_eq!(s.next(&t, 4), TileStep::Done);
    // No finer layout is left.
    let mut s = TileSearch { tile_cols_log2: 2, tile_rows_log2: 1, asked: true };
    assert_eq!(s.next(&tiling(), 100), TileStep::Done);
}

fn key_frame() -> FrameInvariants {
    let s = Sequence::new(&config(), tiling());
    let grain = vec![GrainSegment { start_time: 0, end_time: 10_000_000, random_seed: 65535 - 3247 }];
    FrameInvariants::new_key_frame(&frame_config(), &s, 8, grain, 0)
}

#[test]
fn key_frames() {
    let fi = key_frame();
    let h = fi.header;
    assert_eq!((h.sb_width, h.sb_height, h.w_in_b, h.h_in_b), (6, 5, 88, 72));
    assert_eq!(h.frame_type, FrameType::KEY);
    assert!(h.intra_only && h.show_frame && h.showable_frame && h.tx_mode_select);
    assert_eq!(h.primary_ref_frame, PRIMARY_REF_NONE);
    assert_eq!(h.refresh_frame_flags, ALL_REF_FRAMES_MASK);
    // The distortion of transforms counts only where fidelity is measured alone.
    assert!(!h.use_tx_domain_distortion && !h.use_tx_domain_rate);
    assert_eq!(fi.cdef_y_strengths, [0, 4, 9, 13, 22, 31, 43, 55]);
    let d = fi.coded_frame_data.as_ref().unwrap();
    assert_eq!((d.w_in_imp_b, d.h_in_imp_b), (44, 36));
    assert_eq!(d.distortion_scales.len(), 44 * 36);
    assert!(!fi.is_show_existing_frame());
    assert_eq!(fi.get_frame_subtype(), 0);
    assert_eq!(fi.sb_size_log2(), 6);
    let s = Sequence::new(&config(), tiling());
    let c = FrameConfig { txrate: true, render_width: 400, no_early_exit: true, ..frame_config() };
    let fi = FrameInvariants::new(&c, &s, 8, vec![]);
    assert!(fi.header.use_tx_domain_distortion && fi.header.use_tx_domain_rate);
    assert!(fi.header.render_and_frame_size_different && !fi.header.enable_early_exit);
    assert!(fi.is_show_existing_frame());
}

#[test]
fn levels_of_a_pyramid() {
    assert_eq!([0, 1, 2, 3].map(|p| pos_to_lvl(p, 2)), [0, 2, 1, 2]);
    assert_eq!([0, 1, 2, 3, 4, 5, 6, 7, 8].map(|p| pos_to_lvl(p, 3)), [0, 3, 2, 3, 1, 3, 2, 3, 0]);
    assert_eq!(pos_to_lvl(7, 0), 0);
}

fn pyramid() -> InterConfig {
    InterConfig { multiref: true, pyramid_depth: 2, group_input_len: 4, switch_frame_interval: 0 }
}

fn position(order_hint: u32, level: u64, idx: u64, slot: u32, shown: bool) -> FramePosition {
    FramePosition {
        input_frameno: order_hint as u64,
        idx_in_group_output: idx,
        show_existing_frame: false,
        order_hint,
        level,
        slot_idx: slot,
        show_frame: shown,
    }
}

fn next(fi: &FrameInvariants, c: &InterConfig, p: &FramePosition, max_level: u64) -> FrameInvariants {
    FrameInvariants::new_inter_frame(fi, c, p, 1, 1000, false, max_level, None, 10956).unwrap()
}

#[test]
fn frames_of_a_group() {
    let mut key = key_frame();
    update_rec_buffer(0, &mut key, SegmentationState::default(), DeblockState::default(), 17);
    assert!(key.rec_buffer.frames.iter().all(|f| f.unwrap().buffer == 17));
    // The anchor four frames ahead.
    let anchor = next(&key, &pyramid(), &position(4, 0, 0, 1, false), 4);
    let h = anchor.header;
    assert_eq!(h.frame_type, FrameType::INTER);
    assert!(!h.intra_only && !h.show_frame);
    assert_eq!(h.refresh_frame_flags, 2);
    assert_eq!(h.primary_ref_frame, 2);
    assert_eq!(h.reference_mode, ReferenceMode::SINGLE);
    assert_eq!(h.me_range_scale, 4);
    assert_eq!(anchor.ref_frames, [0, 3, 0, 0, 0, 0, 0]);
    assert_eq!(anchor.ref_frame_sign_bias, [false; 7]);
    let mut anchor = anchor;
    update_rec_buffer(1, &mut anchor, SegmentationState::default(), DeblockState::default(), 18);
    assert_eq!(anchor.rec_buffer.frames[1].unwrap().order_hint, 4);
    assert_eq!(anchor.rec_buffer.frames[0].unwrap().buffer, 17);
    // The frame in the middle, predicted from both sides.
    let middle = next(&anchor, &pyramid(), &position(2, 1, 1, 4, false), 4);
    assert_eq!(middle.ref_frames, [0, 0, 4, 0, 0, 0, 1]);
    assert_eq!(middle.ref_frame_sign_bias, [false, false, false, false, false, false, true]);
    assert_eq!(middle.header.reference_mode, ReferenceMode::SELECT);
    assert_eq!(middle.header.refresh_frame_flags, 16);
    assert_eq!(middle.get_frame_subtype(), 2);
    assert_eq!(middle.lambda_level(), 1);
    assert_eq!(middle.get_initial_cdfcontext(), Some(17));
    // A frame that shows one that is coded already.
    let shown = FramePosition { show_existing_frame: true, ..position(4, 0, 4, 1, true) };
    let shown = next(&middle, &pyramid(), &shown, 4);
    assert!(shown.is_show_existing_frame());
    assert_eq!(shown.header.refresh_frame_flags, 0);
    assert_eq!(shown.shown_reference(), Some(18));
    // Past the next key frame there is none.
    assert!(FrameInvariants::new_inter_frame(
        &key, &pyramid(), &position(4, 0, 0, 1, false), 1, 4, false, 4, None, 10956,
    )
    .is_none());
}

#[test]
fn deep_levels_start_afresh_where_asked() {
    let key = key_frame();
    let c = InterConfig { pyramid_depth: 3, group_input_len: 8, ..pyramid() };
    let p = position(1, 3, 3, 6, true);
    assert_eq!(next(&key, &c, &p, 4).header.primary_ref_frame, 2);
    assert_eq!(next(&key, &c, &p, 2).header.primary_ref_frame, PRIMARY_REF_NONE);
    assert_eq!(next(&key, &c, &p, 2).get_initial_cdfcontext(), None);
    assert!(!next(&key, &c, &p, 2).get_initial_segmentation().enabled);
    // The segments of the primary reference are taken over.
    let mut coded = key_frame();
    let seg = SegmentationState { enabled: true, max_segment: 5, ..SegmentationState::default() };
    update_rec_buffer(0, &mut coded, seg, DeblockState::default(), 3);
    let s = next(&coded, &c, &p, 4).get_initial_segmentation();
    assert!(s.enabled && s.max_segment == 5);
}

#[test]
fn switch_frames_refresh_everything() {
    let key = key_frame();
    let c = InterConfig { switch_frame_interval: 1, ..pyramid() };
    let fi = FrameInvariants::new_inter_frame(
        &key, &c, &position(4, 0, 0, 1, false), 3, 1000, false, 4, Some(2), 10956,
    )
    .unwrap();
    assert_eq!(fi.header.frame_type, FrameType::SWITCH);
    assert!(fi.header.error_resilient && fi.header.frame_size_override_flag);
    assert_eq!(fi.header.refresh_frame_flags, ALL_REF_FRAMES_MASK);
    assert_eq!(fi.header.primary_ref_frame, PRIMARY_REF_NONE);
    assert_eq!(fi.header.default_filter, FilterMode::SHARP);
    let plain = key.clone_without_coded_data(None);
    assert!(plain.is_show_existing_frame());
    assert_eq!(plain.header, key.header);
}

#[test]
fn film_grain_seeds_advance() {
    let key = key_frame();
    assert_eq!(key.frame_timestamp(), 0);
    assert_eq!(key.film_grain_params(), Some(0));
    // The seed turns over to zero, which stands for the default one.
    let fi = next(&key, &pyramid(), &position(6, 1, 1, 4, true), 4);
    assert_eq!(fi.frame_timestamp(), 2_000_000);
    assert_eq!(fi.film_grain[0].random_seed, 10956);
    // Outside of every segment nothing changes.
    let fi = next(&key, &pyramid(), &position(32, 0, 0, 0, true), 4);
    assert_eq!(fi.film_grain[0].random_seed, key.film_grain[0].random_seed);
    assert_eq!(fi.film_grain_params(), None);
}

#[test]
fn quantizers_of_planes() {
    let mut fi = key_frame();
    let q = QuantizerIndices { ac_qi: [130, 120, 140], dc_qi: [128, 130, 135] };
    fi.set_quantizers(&q, CdefFit { y_pri: 3, y_sec: 2, uv_pri: 15, uv_sec: 0 });
    assert_eq!(fi.header.base_q_idx, 130);
    assert_eq!(fi.header.cdef_damping, 5);
    assert_eq!(fi.ac_delta_q, [0, -10, 10]);
    assert_eq!(fi.dc_delta_q, [-2, 0, 5]);
    assert_eq!(fi.cdef_y_strengths[0], 14);
    assert_eq!(fi.cdef_uv_strengths[0], 60);
    assert_eq!(fi.lambda_level(), 0);
    assert_eq!(fi.header.cdef_search_method, CDEFSearchMethod::PickFromQ);
    fi.header.input_frameno = 120;
    assert_eq!(fi.describe("Key frame"), "Input Frame 120 - Key frame");
    assert_eq!(fi.globalmv_transformation_type, [GlobalMVMode::IDENTITY; 7]);
}

#[test]
fn segment_quantizers_and_thresholds() {
    let mut s = SegmentationState::default();
    assert_eq!(s.threshold, [DistortionScale(16384); 7]);
    assert_eq!(get_qidx(&s, 100, 3), 100);
    s.features[3][0] = true;
    s.data[3][0] = -120;
    assert_eq!(get_qidx(&s, 100, 3), 0);
    s.data[3][0] = 20;
    assert_eq!(get_qidx(&s, 100, 3), 120);
    s.max_segment = 2;
    // The steps of the segments in use are looked up by their deltas, cut to eight bits.
    s.data[1][0] = -200;
    s.data[2][0] = 300;
    assert_eq!(s.threshold_deltas(), vec![0, 56, 44]);
    s.update_threshold(100, &[200, 100, 50]);
    // A ratio of a half, and one of two.
    assert_eq!(s.threshold[0], DistortionScale(8192));
    assert_eq!(s.threshold[1], DistortionScale(32768));
    assert_eq!(s.threshold[2..], [DistortionScale(0); 5]);
    let record = s.threshold_record();
    assert_eq!(record.len(), 16);
    assert_eq!(record[..8], 2u64.to_ne_bytes());
    assert_eq!(record[8..12], 8192u32.to_ne_bytes());
    assert_eq!(record[12..], 32768u32.to_ne_bytes());
    assert_eq!(threshold_name(42), "0000000042-thresholds");
    assert_eq!(scales_name(12345678901, Scales::ActivityScales), "12345678901-activity_scales");
    assert_eq!(scales_name(0, Scales::DistortionScales), "0000000000-distortion_scales");
    assert_eq!(
        scales_name(1234567890, Scales::SpatiotemporalScales),
        "1234567890-spatiotemporal_scales"
    );
}

#[test]
fn distortion_scales() {
    assert_eq!(DistortionScale::new(1, 1), DistortionScale(16384));
    assert_eq!(DistortionScale::new(1, 3), DistortionScale(5461));
    assert_eq!(DistortionScale::new(1 << 40, 1), DistortionScale(0xfff_ffff));
    assert_eq!(DistortionScale(16384).times(DistortionScale(5)), DistortionScale(5));
    assert_eq!(DistortionScale(1).times(DistortionScale(1)), DistortionScale(1));
    let mut d = CodedFrameData::new(4, 2);
    assert_eq!((d.w_in_imp_b, d.h_in_imp_b), (2, 1));
    assert!(d.activity_mask.is_empty());
    assert!(d.lookahead_rec_buffer.frames.iter().all(|f| f.is_none()));
    d.distortion_scales = vec![DistortionScale(16384), DistortionScale(32768)];
    d.activity_scales = vec![DistortionScale(8192), DistortionScale(16384)];
    assert_eq!(d.raw_scores(), vec![DistortionScale(8192), DistortionScale(32768)]);
    let half = d.compute_spatiotemporal_scores(DistortionScale(8192), -7);
    assert_eq!(half, -4);
    assert_eq!(d.spatiotemporal_scores, vec![DistortionScale(4096), DistortionScale(16384)]);
    assert_eq!(d.distortion_scales, vec![DistortionScale(8192), DistortionScale(16384)]);
    let record = d.scales_record(Scales::SpatiotemporalScales);
    assert_eq!(record[..8], 2u64.to_ne_bytes());
    assert_eq!(record[8..16], 1u64.to_ne_bytes());
    assert_eq!(record[16..20], 4096u32.to_ne_bytes());
    assert_eq!(record[20..], 16384u32.to_ne_bytes());
    assert_eq!(d.compute_temporal_scores(DistortionScale(32768), 6), 3);
    assert_eq!(d.distortion_scales, vec![DistortionScale(16384), DistortionScale(32768)]);
    assert_eq!(d.spatiotemporal_scores, d.distortion_scales);
    assert_eq!(d.scales_record(Scales::ActivityScales)[16..20], 8192u32.to_ne_bytes());
    assert_eq!(d.scales_record(Scales::DistortionScales).len(), 24);
}

#[test]
fn frame_states_start_plain() {
    let fi = key_frame();
    let plane = || Plane::<u8>::new(16, 8, 0, 0, 0, 0);
    let frame = Arc::new(Frame { planes: vec![plane()] });
    let rec = Arc::new(Frame { planes: vec![plane()] });
    let fs = FrameState::new_with_frame(&fi, frame.clone(), Arc::new(plane()), Arc::new(plane()), rec);
    assert_eq!(fs.sb_size_log2, 6);
    assert_eq!(fs.deblock.levels, [8, 8, 4, 4]);
    assert!(!fs.segmentation.enabled && fs.input_hres.is_some());
    let t = fs.whole_tile();
    assert_eq!((t.x, t.y, t.width, t.height), (0, 0, 16, 8));
    let area = fs.apply_tile_state_mut(|tile, log2| (tile.width * tile.height, log2));
    assert_eq!(area, (128, 6));
    assert_eq!(fs.enc_stats.skip_block_count, 0);
    let blank = || Plane::<u8>::new(fi.header.width, fi.header.height, 0, 0, 0, 0);
    let empty = Arc::new(Frame { planes: vec![blank()] });
    let fs = FrameState::new(&fi, empty.clone(), Arc::new(plane()), Arc::new(plane()), empty.clone());
    assert!(Arc::ptr_eq(&fs.input, &empty) && fs.input_qres.is_some());
    let fs = FrameState::new_with_frame_and_me_stats_and_rec(&fi, frame.clone(), frame);
    assert!(fs.input_hres.is_none() && fs.input_qres.is_none());
}
