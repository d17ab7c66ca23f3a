use rusty_av1e::context::block_unit::{
    Block, BlockContext, Cdf, ContextWriter, Symbol, SymbolLog, TileBlocks,
};
use rusty_av1e::context::transform_unit::{
    av1_tx_ind, av1_tx_used, get_tx_set, get_tx_set_index, has_chroma, num_tx_set, seg_feature_bits,
    seg_feature_is_signed, tx_type_to_class, uv_intra_mode_to_tx_type_context, SegLvl, TxClass,
    MAX_CODED_TX_SQUARE, TX_PAD_2D, TX_PAD_HOR, TX_PAD_TOP,
};
use rusty_av1e::mc::MotionVector;
use rusty_av1e::partition::{BlockSize, ChromaSampling, RefType, TileBlockOffset};
use rusty_av1e::predict::PredictionMode;
use rusty_av1e::transform::{TxSet, TxSize, TxType};

const ALL: [TxSize; 19] = [
    TxSize::TX_4X4,
    TxSize::TX_8X8,
    TxSize::TX_16X16,
    TxSize::TX_32X32,
    TxSize::TX_64X64,
    TxSize::TX_4X8,
    TxSize::TX_8X4,
    TxSize::TX_8X16,
    TxSize::TX_16X8,
    TxSize::TX_16X32,
    TxSize::TX_32X16,
    TxSize::TX_32X64,
    TxSize::TX_64X32,
    TxSize::TX_4X16,
    TxSize::TX_16X4,
    TxSize::TX_8X32,
    TxSize::TX_32X8,
    TxSize::TX_16X64,
    TxSize::TX_64X16,
];

const CLASSES: [TxClass; 3] = [TxClass::TX_CLASS_2D, TxClass::TX_CLASS_HORIZ, TxClass::TX_CLASS_VERT];

struct Noise(u32);

impl Noise {
    fn next(&mut self) -> u32 {
        self.0 ^= self.0 << 13;
        self.0 ^= self.0 >> 17;
        self.0 ^= self.0 << 5;
        self.0
    }
}

// Padded levels: zeros, with the coded area filled column by column.
fn noisy_levels(noise: &mut Noise, width: usize, height: usize) -> [u8; TX_PAD_2D] {
    let mut buf = [0u8; TX_PAD_2D];
    let levels = &mut buf[TX_PAD_TOP * (height + TX_PAD_HOR)..];
    for c in 0..width {
        for r in 0..height {
            let v = match noise.next() % 4 {
                0 | 1 => 0u8,
                2 => (noise.next() % 4) as u8,
                _ => (noise.next() % 128) as u8,
            };
            levels[c * (height + TX_PAD_HOR) + r] = v;
        }
    }
    buf
}

#[test]
fn nz_map_area_kernel_matches_scalar() {
    let mut noise = Noise(0x1234_5678);
    for &ts in &ALL {
        let coded = ts.coded();
        let height = coded.height();
        let width = coded.width();
        let area = coded.area();
        let bhl = ContextWriter::get_txb_bhl(ts);
        assert_eq!(1usize << bhl, height);

        for &tc in &CLASSES {
            for _trial in 0..4 {
                let buf = noisy_levels(&mut noise, width, height);
                let levels = &buf[TX_PAD_TOP * (height + TX_PAD_HOR)..];
                let mut ctx_area = [0u8; MAX_CODED_TX_SQUARE];
                ContextWriter::nz_map_area_kernel(levels, height, width, ts, tc, &mut ctx_area);
                for pos in 0..area {
                    let scalar =
                        ContextWriter::get_nz_map_ctx(levels, pos, bhl, area, 1, false, ts, tc);
                    assert_eq!(
                        ctx_area[pos] as usize,
                        scalar,
                        "mismatch at pos {pos} (r={}, c={}) ts={} tc={}",
                        pos & (height - 1),
                        pos >> bhl,
                        ts as usize,
                        tc as usize,
                    );
                }
            }
        }
    }
}

#[test]
fn both_context_paths_agree() {
    let mut noise = Noise(0x9e37_79b9);
    let cw = writer(4, 4, intra_block());
    for &ts in &ALL {
        let coded = ts.coded();
        let (width, height, area) = (coded.width(), coded.height(), coded.area());
        let scan: Vec<u16> = (0..area).map(|i| ((i * 7 + 3) % area) as u16).collect();
        for &tc in &CLASSES {
            let buf = noisy_levels(&mut noise, width, height);
            let levels = &buf[TX_PAD_TOP * (height + TX_PAD_HOR)..];
            for eob in [1, 2, area / 8 + 1, area / 4 + 1, area] {
                let fast = cw.get_nz_map_contexts(levels, &scan, eob as u16, ts, tc, true);
                let slow = cw.get_nz_map_contexts(levels, &scan, eob as u16, ts, tc, false);
                assert_eq!(fast, slow);
                assert_eq!(fast.len(), eob);
                let last = eob - 1;
                let want = if last == 0 {
                    0
                } else if last <= area / 8 {
                    1
                } else if last <= area / 4 {
                    2
                } else {
                    3
                };
                assert_eq!(fast[last], want);
            }
        }
    }
}

#[test]
fn a_single_level_reaches_its_neighbours() {
    // One level of two at column 1, row 0 of an 8x8 transform.
    let mut levels = [0u8; TX_PAD_2D];
    levels[12] = 2;
    assert_eq!(ContextWriter::get_nz_mag(&levels, 3, TxClass::TX_CLASS_2D), 2);
    assert_eq!(ContextWriter::get_nz_mag(&levels, 3, TxClass::TX_CLASS_HORIZ), 2);
    assert_eq!(ContextWriter::get_nz_mag(&levels, 3, TxClass::TX_CLASS_VERT), 2);
    levels[12] = 0;
    levels[13] = 9;
    assert_eq!(ContextWriter::get_nz_mag(&levels, 3, TxClass::TX_CLASS_2D), 3);
    assert_eq!(ContextWriter::get_nz_mag(&levels, 3, TxClass::TX_CLASS_HORIZ), 0);
    assert_eq!(ContextWriter::get_nz_mag(&levels, 3, TxClass::TX_CLASS_VERT), 0);
}

#[test]
fn range_contexts() {
    let mut levels = [0u8; TX_PAD_2D];
    levels[1] = 3;
    levels[12] = 4;
    levels[13] = 1;
    levels[24] = 9;
    assert_eq!(ContextWriter::get_br_ctx(&levels, 0, 3, TxClass::TX_CLASS_2D), 4);
    assert_eq!(ContextWriter::get_br_ctx(&levels, 0, 3, TxClass::TX_CLASS_HORIZ), 6);
    assert_eq!(ContextWriter::get_br_ctx(&levels, 0, 3, TxClass::TX_CLASS_VERT), 4);
    // Beside the first position, and far from it.
    assert_eq!(ContextWriter::get_br_ctx(&levels, 8, 3, TxClass::TX_CLASS_2D), 7 + 5);
    assert_eq!(ContextWriter::get_br_ctx(&levels, 40, 3, TxClass::TX_CLASS_2D), 14);
    // Down the columns nothing past the next column's first level is read.
    assert_eq!(ContextWriter::get_br_ctx(&levels[..13], 0, 3, TxClass::TX_CLASS_VERT), 4);
}

#[test]
fn end_of_block_tokens() {
    assert_eq!(ContextWriter::get_eob_pos_token(0), (0, 0));
    assert_eq!(ContextWriter::get_eob_pos_token(1), (1, 0));
    assert_eq!(ContextWriter::get_eob_pos_token(2), (2, 0));
    assert_eq!(ContextWriter::get_eob_pos_token(3), (3, 0));
    assert_eq!(ContextWriter::get_eob_pos_token(4), (3, 1));
    assert_eq!(ContextWriter::get_eob_pos_token(5), (4, 0));
    assert_eq!(ContextWriter::get_eob_pos_token(16), (5, 7));
    assert_eq!(ContextWriter::get_eob_pos_token(17), (6, 0));
    assert_eq!(ContextWriter::get_eob_pos_token(1024), (11, 511));
    // A token and its extra bits give the position back.
    for eob in 2u16..=1024 {
        let (t, extra) = ContextWriter::get_eob_pos_token(eob);
        assert_eq!((1u32 << (t - 2)) + 1 + extra, eob as u32);
    }
}

#[test]
fn levels_are_magnitudes_up_to_127() {
    let cw = writer(4, 4, intra_block());
    let coeffs: [i32; 8] = [0, -1, 126, -127, 128, -300, 5, 70000];
    let mut levels = [200u8; 14];
    cw.txb_init_levels(&coeffs, 2, &mut levels, 6);
    // Only two columns of six fit; the rest is left alone.
    assert_eq!(levels, [0, 1, 200, 200, 200, 200, 126, 127, 200, 200, 200, 200, 200, 200]);
    let short: [i16; 4] = [-4, 32767, -32767, 2];
    let mut levels = [9u8; 16];
    cw.txb_init_levels(&short, 4, &mut levels, 8);
    assert_eq!(levels[..8], [4, 127, 127, 2, 9, 9, 9, 9]);
    assert_eq!(levels[8..], [9; 8]);
}

#[test]
fn transform_sets() {
    assert_eq!(get_tx_set(TxSize::TX_64X64, true, false), TxSet::TX_SET_DCTONLY);
    assert_eq!(get_tx_set(TxSize::TX_32X32, false, false), TxSet::TX_SET_DCTONLY);
    assert_eq!(get_tx_set(TxSize::TX_32X32, true, false), TxSet::TX_SET_INTER_3);
    assert_eq!(get_tx_set(TxSize::TX_16X16, true, false), TxSet::TX_SET_INTER_2);
    assert_eq!(get_tx_set(TxSize::TX_16X16, false, false), TxSet::TX_SET_INTRA_2);
    assert_eq!(get_tx_set(TxSize::TX_8X8, true, false), TxSet::TX_SET_INTER_1);
    assert_eq!(get_tx_set(TxSize::TX_8X8, false, false), TxSet::TX_SET_INTRA_1);
    assert_eq!(get_tx_set(TxSize::TX_8X8, true, true), TxSet::TX_SET_INTER_3);
    assert_eq!(get_tx_set(TxSize::TX_8X8, false, true), TxSet::TX_SET_INTRA_2);
    assert_eq!(num_tx_set(TxSet::TX_SET_INTER_1), 16);
    assert_eq!(num_tx_set(TxSet::TX_SET_DCTONLY), 1);
    assert_eq!(get_tx_set_index(TxSize::TX_8X8, true, false), 1);
    assert_eq!(get_tx_set_index(TxSize::TX_8X8, false, false), 1);
    assert_eq!(get_tx_set_index(TxSize::TX_16X16, false, false), 2);
    assert!(av1_tx_used(TxSet::TX_SET_INTER_1, TxType::H_FLIPADST));
    assert!(!av1_tx_used(TxSet::TX_SET_INTRA_2, TxType::V_DCT));
    assert!(av1_tx_used(TxSet::TX_SET_INTER_3, TxType::IDTX));
    assert_eq!(tx_type_to_class(TxType::V_ADST), TxClass::TX_CLASS_VERT);
    assert_eq!(tx_type_to_class(TxType::H_DCT), TxClass::TX_CLASS_HORIZ);
    assert_eq!(tx_type_to_class(TxType::IDTX), TxClass::TX_CLASS_2D);
    assert_eq!(uv_intra_mode_to_tx_type_context(PredictionMode::V_PRED), TxType::ADST_DCT);
    assert_eq!(uv_intra_mode_to_tx_type_context(PredictionMode::PAETH_PRED), TxType::ADST_ADST);
    assert_eq!(uv_intra_mode_to_tx_type_context(PredictionMode::UV_CFL_PRED), TxType::DCT_DCT);
}

#[test]
fn transform_symbols_differ_within_a_set() {
    let types = [
        TxType::DCT_DCT,
        TxType::ADST_DCT,
        TxType::DCT_ADST,
        TxType::ADST_ADST,
        TxType::FLIPADST_DCT,
        TxType::DCT_FLIPADST,
        TxType::FLIPADST_FLIPADST,
        TxType::ADST_FLIPADST,
        TxType::FLIPADST_ADST,
        TxType::IDTX,
        TxType::V_DCT,
        TxType::H_DCT,
        TxType::V_ADST,
        TxType::H_ADST,
        TxType::V_FLIPADST,
        TxType::H_FLIPADST,
    ];
    let sets = [
        TxSet::TX_SET_DCTONLY,
        TxSet::TX_SET_INTER_3,
        TxSet::TX_SET_INTRA_2,
        TxSet::TX_SET_INTRA_1,
        TxSet::TX_SET_INTER_2,
        TxSet::TX_SET_INTER_1,
    ];
    for &set in &sets {
        let used: Vec<u32> =
            types.iter().filter(|&&t| av1_tx_used(set, t)).map(|&t| av1_tx_ind(set, t)).collect();
        assert_eq!(used.len(), num_tx_set(set));
        let mut symbols = used.clone();
        symbols.sort();
        assert_eq!(symbols, (0..num_tx_set(set) as u32).collect::<Vec<u32>>());
    }
}

#[test]
fn chroma_belongs_to_the_last_narrow_block() {
    let at = |x, y| TileBlockOffset { x, y };
    let cs = ChromaSampling::Cs420;
    assert!(has_chroma(at(0, 0), BlockSize::BLOCK_8X8, 1, 1, cs));
    assert!(!has_chroma(at(0, 0), BlockSize::BLOCK_4X4, 1, 1, cs));
    assert!(!has_chroma(at(1, 0), BlockSize::BLOCK_4X4, 1, 1, cs));
    assert!(has_chroma(at(1, 1), BlockSize::BLOCK_4X4, 1, 1, cs));
    assert!(has_chroma(at(1, 0), BlockSize::BLOCK_4X16, 1, 1, cs));
    assert!(!has_chroma(at(1, 1), BlockSize::BLOCK_4X4, 1, 1, ChromaSampling::Cs400));
    assert!(has_chroma(at(0, 0), BlockSize::BLOCK_4X4, 0, 0, ChromaSampling::Cs444));
}

#[test]
fn entropy_contexts_of_transform_sizes() {
    let ctx = ContextWriter::get_txsize_entropy_ctx;
    assert_eq!([TxSize::TX_4X4, TxSize::TX_8X8, TxSize::TX_16X16].map(ctx), [0, 1, 2]);
    assert_eq!([TxSize::TX_32X32, TxSize::TX_64X64].map(ctx), [3, 4]);
    assert_eq!([TxSize::TX_4X8, TxSize::TX_8X32, TxSize::TX_16X64].map(ctx), [1, 2, 3]);
}

#[test]
fn segment_features() {
    assert_eq!(seg_feature_bits(SegLvl::SEG_LVL_ALT_Q), 8);
    assert_eq!(seg_feature_bits(SegLvl::SEG_LVL_ALT_LF_V), 6);
    assert_eq!(seg_feature_bits(SegLvl::SEG_LVL_REF_FRAME), 3);
    assert_eq!(seg_feature_bits(SegLvl::SEG_LVL_SKIP), 0);
    assert!(seg_feature_is_signed(SegLvl::SEG_LVL_ALT_LF_U));
    assert!(!seg_feature_is_signed(SegLvl::SEG_LVL_GLOBALMV));
}

fn block(mode: PredictionMode, bsize: BlockSize, n4: u8, skip: bool, first: RefType) -> Block {
    Block {
        mode,
        bsize,
        n4_w: n4,
        n4_h: n4,
        skip,
        ref_frames: [first, RefType::NONE_FRAME],
        mv: [MotionVector { row: 0, col: 0 }; 2],
    }
}

fn intra_block() -> Block {
    block(PredictionMode::DC_PRED, BlockSize::BLOCK_16X16, 4, false, RefType::INTRA_FRAME)
}

fn writer(cols: usize, rows: usize, b: Block) -> ContextWriter {
    ContextWriter {
        bc: BlockContext {
            above_tx_context: vec![0; cols + 32],
            left_tx_context: [0; 16],
            blocks: TileBlocks { data: vec![b; cols * rows], cols, rows },
        },
    }
}

#[test]
fn transform_type_symbols() {
    let mut cw = writer(16, 16, intra_block());
    let mut log = SymbolLog::new();
    cw.write_tx_type(&mut log, TxSize::TX_8X8, TxType::DCT_DCT, PredictionMode::V_PRED, false, false);
    assert_eq!(
        log.log,
        vec![Symbol {
            cdf: Cdf::IntraTx1(1, 1),
            value: av1_tx_ind(TxSet::TX_SET_INTRA_1, TxType::DCT_DCT),
        }]
    );
    let mut log = SymbolLog::new();
    cw.write_tx_type(&mut log, TxSize::TX_16X16, TxType::IDTX, PredictionMode::NEWMV, true, false);
    assert_eq!(
        log.log,
        vec![Symbol {
            cdf: Cdf::InterTx2(2),
            value: av1_tx_ind(TxSet::TX_SET_INTER_2, TxType::IDTX),
        }]
    );
    // There is no choice for the largest transform.
    let mut log = SymbolLog::new();
    cw.write_tx_type(&mut log, TxSize::TX_64X64, TxType::DCT_DCT, PredictionMode::NEWMV, true, false);
    assert!(log.log.is_empty());
}

#[test]
fn intra_transform_depth_symbols() {
    let bo = TileBlockOffset { x: 4, y: 4 };
    let mut cw = writer(16, 16, intra_block());
    let mut log = SymbolLog::new();
    cw.write_tx_size_intra(&mut log, bo, BlockSize::BLOCK_16X16, TxSize::TX_8X8);
    assert_eq!(log.log, vec![Symbol { cdf: Cdf::TxSize(0, 0), value: 1 }]);
    // Large neighbours raise the context.
    cw.bc.above_tx_context[4] = 16;
    cw.bc.left_tx_context[4] = 64;
    let mut log = SymbolLog::new();
    cw.write_tx_size_intra(&mut log, bo, BlockSize::BLOCK_8X8, TxSize::TX_8X8);
    assert_eq!(log.log, vec![Symbol { cdf: Cdf::TxSize8x8(2), value: 0 }]);
}

#[test]
fn inter_transform_trees() {
    let bo = TileBlockOffset { x: 0, y: 0 };
    let mut cw = writer(16, 16, intra_block());
    let mut log = SymbolLog::new();
    // A 64x64 block that is not split.
    cw.write_tx_size_inter(&mut log, bo, BlockSize::BLOCK_64X64, TxSize::TX_64X64, false, 0, 0, 0);
    assert_eq!(log.log, vec![Symbol { cdf: Cdf::TxfmPartition(0), value: 0 }]);
    assert_eq!(cw.bc.above_tx_context[..16], [64; 16]);
    assert_eq!(cw.bc.left_tx_context, [64; 16]);
    // One that is split into four, each with its own symbol.
    let mut log = SymbolLog::new();
    cw.write_tx_size_inter(&mut log, bo, BlockSize::BLOCK_64X64, TxSize::TX_64X64, true, 0, 0, 0);
    assert_eq!(log.log.len(), 5);
    assert_eq!(log.log[0], Symbol { cdf: Cdf::TxfmPartition(0), value: 1 });
    assert!(log.log[1..].iter().all(|s| s.value == 0));
    assert_eq!(log.log[1].cdf, Cdf::TxfmPartition(3));
    assert_eq!(cw.bc.above_tx_context[..16], [32; 16]);
    assert_eq!(cw.bc.above_tx_context[16..], [0; 32]);
    assert_eq!(cw.bc.left_tx_context, [32; 16]);
    // Nothing is written outside the tile.
    let mut log = SymbolLog::new();
    let out = TileBlockOffset { x: 16, y: 0 };
    cw.write_tx_size_inter(&mut log, out, BlockSize::BLOCK_8X8, TxSize::TX_8X8, false, 0, 0, 0);
    assert!(log.log.is_empty());
}

#[test]
fn skipped_blocks_record_their_own_size() {
    let mut cw = writer(16, 16, intra_block());
    let bo = TileBlockOffset { x: 2, y: 20 };
    cw.bc.update_tx_size_context(bo, BlockSize::BLOCK_8X16, TxSize::TX_8X8, false);
    assert_eq!(cw.bc.above_tx_context[1..5], [0, 8, 8, 0]);
    assert_eq!(cw.bc.left_tx_context[3..9], [0, 8, 8, 8, 8, 0]);
    cw.bc.update_tx_size_context(bo, BlockSize::BLOCK_8X16, TxSize::TX_8X8, true);
    assert_eq!(cw.bc.above_tx_context[1..5], [0, 8, 8, 0]);
    assert_eq!(cw.bc.left_tx_context[3..9], [0, 16, 16, 16, 16, 0]);
}
