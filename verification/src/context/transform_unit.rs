//! Transform syntax: type sets, size and type symbols, coefficient levels and
//! the contexts of their symbols.

use vstd::arithmetic::power2::*;
use vstd::prelude::*;

use crate::context::block_unit::{filled, y_in_sb, Block, BlockContext, Cdf, ContextWriter, Symbol, Writer};
use crate::partition::{lemma_block_size_by_log2, BlockSize, ChromaSampling, TileBlockOffset};
use crate::predict::PredictionMode;
use crate::transform::{side_of, split_log2, TxSet, TxSize, TxType};
use crate::util::{floor_log2, iabs, imax, imin};

verus! {

pub const MAX_TX_SIZE: usize = 64;

pub const MAX_CODED_TX_SIZE: usize = 32;

pub const MAX_CODED_TX_SQUARE: usize = 1024;

/// Levels of a transform tree below its root.
pub const MAX_TX_DEPTH: usize = 2;

/// Levels of an inter transform tree that may split.
pub const MAX_VARTX_DEPTH: usize = 2;

/// Columns of padding that spare the horizontal availability check.
pub const TX_PAD_HOR: usize = 4;

/// Rows of padding above the coded area.
pub const TX_PAD_TOP: usize = 2;

/// The padded buffer of levels for the largest coded area.
pub const TX_PAD_2D: usize = 1384;

/// The direction in which the coefficients of a transform are ordered.
#[allow(non_camel_case_types)]
#[derive(Clone, Copy, Debug, PartialEq, Eq, Structural)]
pub enum TxClass {
    TX_CLASS_2D,
    TX_CLASS_HORIZ,
    TX_CLASS_VERT,
}

/// What a segment may override.
#[allow(non_camel_case_types)]
#[derive(Clone, Copy, Debug, PartialEq, Eq, Structural)]
pub enum SegLvl {
    /// The quantizer.
    SEG_LVL_ALT_Q,
    /// The vertical luma loop filter.
    SEG_LVL_ALT_LF_Y_V,
    /// The horizontal luma loop filter.
    SEG_LVL_ALT_LF_Y_H,
    /// The loop filter of the first chroma plane.
    SEG_LVL_ALT_LF_U,
    /// The loop filter of the second chroma plane.
    SEG_LVL_ALT_LF_V,
    /// The reference frame.
    SEG_LVL_REF_FRAME,
    /// Zero motion and no residual.
    SEG_LVL_SKIP,
    SEG_LVL_GLOBALMV,
    /// The number of features.
    SEG_LVL_MAX,
}

/// The contexts of a transform block's first symbols.
#[allow(non_camel_case_types)]
#[derive(Clone, Copy, Debug, PartialEq, Eq, Structural)]
pub struct TXB_CTX {
    pub txb_skip_ctx: usize,
    pub dc_sign_ctx: usize,
}

/// How many bits a segment feature takes.
pub fn seg_feature_bits(f: SegLvl) -> (r: u32)
    requires
        f != SegLvl::SEG_LVL_MAX,
    ensures
        r == match f {
            SegLvl::SEG_LVL_ALT_Q => 8int,
            SegLvl::SEG_LVL_REF_FRAME => 3,
            SegLvl::SEG_LVL_SKIP | SegLvl::SEG_LVL_GLOBALMV => 0,
            _ => 6,
        },
{
    match f {
        SegLvl::SEG_LVL_ALT_Q => 8,
        SegLvl::SEG_LVL_REF_FRAME => 3,
        SegLvl::SEG_LVL_SKIP | SegLvl::SEG_LVL_GLOBALMV => 0,
        _ => 6,
    }
}

/// Whether a segment feature carries a sign: the quantizer and the loop filters.
pub fn seg_feature_is_signed(f: SegLvl) -> (r: bool)
    requires
        f != SegLvl::SEG_LVL_MAX,
    ensures
        r == match f {
            SegLvl::SEG_LVL_REF_FRAME | SegLvl::SEG_LVL_SKIP | SegLvl::SEG_LVL_GLOBALMV => false,
            _ => true,
        },
{
    match f {
        SegLvl::SEG_LVL_REF_FRAME | SegLvl::SEG_LVL_SKIP | SegLvl::SEG_LVL_GLOBALMV => false,
        _ => true,
    }
}

/// The block at `bo` carries the chroma of its area: with subsampling, a block of
/// a single unit does so only at odd positions.
pub open spec fn chroma_at(bo: TileBlockOffset, bsize: BlockSize, xdec: int, ydec: int, cs: ChromaSampling) -> bool {
    &&& cs != ChromaSampling::Cs400
    &&& bo.x as int % 2 == 1 || (bsize.w() / 4) % 2 == 0 || xdec == 0
    &&& bo.y as int % 2 == 1 || (bsize.h() / 4) % 2 == 0 || ydec == 0
}

/// Whether the block at `bo` carries chroma.
pub fn has_chroma(bo: TileBlockOffset, bsize: BlockSize, subsampling_x: usize, subsampling_y: usize, chroma_sampling: ChromaSampling) -> (r: bool)
    ensures
        r == chroma_at(bo, bsize, subsampling_x as int, subsampling_y as int, chroma_sampling),
{
    if chroma_sampling == ChromaSampling::Cs400 {
        return false;
    }
    let bw: usize = bsize.width_mi();
    let bh: usize = bsize.height_mi();
    (bo.x % 2 == 1 || bw % 2 == 0 || subsampling_x == 0) && (bo.y % 2 == 1 || bh % 2 == 0 || subsampling_y == 0)
}

/// The transform types that a block may choose from: by the square that covers
/// it and the square that it covers.
pub open spec fn tx_set_of(tx_size: TxSize, is_inter: bool, reduced: bool) -> TxSet {
    let up = imax(tx_size.wl(), tx_size.hl());
    let down = imin(tx_size.wl(), tx_size.hl());
    if up > 5 {
        TxSet::TX_SET_DCTONLY
    } else if is_inter {
        if reduced || up == 5 {
            TxSet::TX_SET_INTER_3
        } else if down == 4 {
            TxSet::TX_SET_INTER_2
        } else {
            TxSet::TX_SET_INTER_1
        }
    } else if up == 5 {
        TxSet::TX_SET_DCTONLY
    } else if reduced || down == 4 {
        TxSet::TX_SET_INTRA_2
    } else {
        TxSet::TX_SET_INTRA_1
    }
}

/// The transform types that a block may choose from.
pub fn get_tx_set(tx_size: TxSize, is_inter: bool, use_reduced_set: bool) -> (r: TxSet)
    ensures
        r == tx_set_of(tx_size, is_inter, use_reduced_set),
{
    let up: usize = tx_size.sqr_up().width_log2();
    let down: usize = tx_size.sqr().width_log2();
    if up > 5 {
        return TxSet::TX_SET_DCTONLY;
    }
    if is_inter {
        if use_reduced_set || up == 5 {
            TxSet::TX_SET_INTER_3
        } else if down == 4 {
            TxSet::TX_SET_INTER_2
        } else {
            TxSet::TX_SET_INTER_1
        }
    } else if up == 5 {
        TxSet::TX_SET_DCTONLY
    } else if use_reduced_set || down == 4 {
        TxSet::TX_SET_INTRA_2
    } else {
        TxSet::TX_SET_INTRA_1
    }
}

/// The number of transform types in a set.
pub open spec fn set_len(set: TxSet) -> int {
    match set {
        TxSet::TX_SET_DCTONLY => 1,
        TxSet::TX_SET_INTER_3 => 2,
        TxSet::TX_SET_INTRA_2 => 5,
        TxSet::TX_SET_INTRA_1 => 7,
        TxSet::TX_SET_INTER_2 => 12,
        TxSet::TX_SET_INTER_1 => 16,
    }
}

/// The number of transform types in a set.
pub fn num_tx_set(set: TxSet) -> (r: usize)
    ensures
        r == set_len(set),
{
    match set {
        TxSet::TX_SET_DCTONLY => 1,
        TxSet::TX_SET_INTER_3 => 2,
        TxSet::TX_SET_INTRA_2 => 5,
        TxSet::TX_SET_INTRA_1 => 7,
        TxSet::TX_SET_INTER_2 => 12,
        TxSet::TX_SET_INTER_1 => 16,
    }
}

/// The number by which the models of a set are found: among the intra sets or
/// among the inter sets; a set of the other kind has none.
pub open spec fn set_index(set: TxSet, is_inter: bool) -> int {
    match set {
        TxSet::TX_SET_DCTONLY => 0,
        TxSet::TX_SET_INTER_3 => if is_inter { 3 } else { -1 },
        TxSet::TX_SET_INTRA_2 => if is_inter { -1 } else { 2 },
        TxSet::TX_SET_INTRA_1 => if is_inter { -1 } else { 1 },
        TxSet::TX_SET_INTER_2 => if is_inter { 2 } else { -1 },
        TxSet::TX_SET_INTER_1 => if is_inter { 1 } else { -1 },
    }
}

/// The number by which the models of a block's transform types are found.
pub fn get_tx_set_index(tx_size: TxSize, is_inter: bool, use_reduced_set: bool) -> (r: i8)
    ensures
        r == set_index(tx_set_of(tx_size, is_inter, use_reduced_set), is_inter),
{
    let set: TxSet = get_tx_set(tx_size, is_inter, use_reduced_set);
    match set {
        TxSet::TX_SET_DCTONLY => 0,
        TxSet::TX_SET_INTER_3 => if is_inter { 3 } else { -1 },
        TxSet::TX_SET_INTRA_2 => if is_inter { -1 } else { 2 },
        TxSet::TX_SET_INTRA_1 => if is_inter { -1 } else { 1 },
        TxSet::TX_SET_INTER_2 => if is_inter { 2 } else { -1 },
        TxSet::TX_SET_INTER_1 => if is_inter { 1 } else { -1 },
    }
}

/// The set holds the type.
pub open spec fn tx_used(set: TxSet, t: TxType) -> bool {
    let i = t.idx();
    match set {
        TxSet::TX_SET_DCTONLY => i == 0,
        TxSet::TX_SET_INTER_3 => i == 0 || i == 9,
        TxSet::TX_SET_INTRA_2 => i <= 3 || i == 9,
        TxSet::TX_SET_INTRA_1 => i <= 3 || 9 <= i <= 11,
        TxSet::TX_SET_INTER_2 => i <= 11,
        TxSet::TX_SET_INTER_1 => true,
    }
}

/// Whether the set holds the type.
pub fn av1_tx_used(set: TxSet, t: TxType) -> (r: bool)
    ensures
        r == tx_used(set, t),
{
    let i: usize = t.index();
    match set {
        TxSet::TX_SET_DCTONLY => i == 0,
        TxSet::TX_SET_INTER_3 => i == 0 || i == 9,
        TxSet::TX_SET_INTRA_2 => i <= 3 || i == 9,
        TxSet::TX_SET_INTRA_1 => i <= 3 || 9 <= i && i <= 11,
        TxSet::TX_SET_INTER_2 => i <= 11,
        TxSet::TX_SET_INTER_1 => true,
    }
}

/// The symbol that codes a type within a set that holds it: the identity comes
/// first, then the transforms in one direction, then those in two, each group in
/// the order of the types, but for both directions with a plain sine, which
/// comes before or among the flipped ones.
pub open spec fn tx_symbol(set: TxSet, t: TxType) -> int {
    let i = t.idx();
    match set {
        TxSet::TX_SET_DCTONLY => 0,
        TxSet::TX_SET_INTER_3 => if i == 0 { 1 } else { 0 },
        TxSet::TX_SET_INTRA_2 => if i == 0 {
            1
        } else if i == 1 {
            3
        } else if i == 2 {
            4
        } else if i == 3 {
            2
        } else {
            0
        },
        TxSet::TX_SET_INTRA_1 => if i == 0 {
            1
        } else if i == 1 {
            5
        } else if i == 2 {
            6
        } else if i == 3 {
            4
        } else if i == 10 {
            2
        } else if i == 11 {
            3
        } else {
            0
        },
        TxSet::TX_SET_INTER_2 => full_symbol(i, 3),
        TxSet::TX_SET_INTER_1 => full_symbol(i, 7),
    }
}

/// The symbol of a type in the two large sets, of which `first` types act in one
/// direction at most.
pub open spec fn full_symbol(i: int, first: int) -> int {
    if i >= 9 {
        i - 9
    } else if i <= 2 {
        first + i
    } else if i == 3 {
        first + 5
    } else if i <= 5 {
        first + i - 1
    } else {
        first + i
    }
}

/// The symbol that codes a type within a set that holds it.
pub fn av1_tx_ind(set: TxSet, t: TxType) -> (r: u32)
    requires
        tx_used(set, t),
    ensures
        r == tx_symbol(set, t),
{
    let i: u32 = t.index() as u32;
    let first: u32 = match set {
        TxSet::TX_SET_INTER_2 => 3,
        _ => 7,
    };
    match set {
        TxSet::TX_SET_DCTONLY => 0,
        TxSet::TX_SET_INTER_3 => if i == 0 { 1 } else { 0 },
        TxSet::TX_SET_INTRA_2 => if i == 0 {
            1
        } else if i == 1 {
            3
        } else if i == 2 {
            4
        } else if i == 3 {
            2
        } else {
            0
        },
        TxSet::TX_SET_INTRA_1 => if i == 0 {
            1
        } else if i == 1 {
            5
        } else if i == 2 {
            6
        } else if i == 3 {
            4
        } else if i == 10 {
            2
        } else if i == 11 {
            3
        } else {
            0
        },
        TxSet::TX_SET_INTER_2 | TxSet::TX_SET_INTER_1 => if i >= 9 {
            i - 9
        } else if i <= 2 {
            first + i
        } else if i == 3 {
            first + 5
        } else if i <= 5 {
            first + i - 1
        } else {
            first + i
        },
    }
}

/// Within a set every type has a symbol of its own, below the number of types.
pub proof fn law_tx_symbols_are_a_code(set: TxSet, s: TxType, t: TxType)
    requires
        tx_used(set, s),
        tx_used(set, t),
    ensures
        0 <= tx_symbol(set, s) < set_len(set),
        tx_symbol(set, s) == tx_symbol(set, t) ==> s == t,
{
}

/// Transforms in one direction order their coefficients along it.
pub open spec fn class_of(t: TxType) -> TxClass {
    let i = t.idx();
    if i < 10 {
        TxClass::TX_CLASS_2D
    } else if i % 2 == 0 {
        TxClass::TX_CLASS_VERT
    } else {
        TxClass::TX_CLASS_HORIZ
    }
}

/// The direction in which the coefficients of a transform are ordered.
pub fn tx_type_to_class(t: TxType) -> (r: TxClass)
    ensures
        r == class_of(t),
{
    let i: usize = t.index();
    if i < 10 {
        TxClass::TX_CLASS_2D
    } else if i % 2 == 0 {
        TxClass::TX_CLASS_VERT
    } else {
        TxClass::TX_CLASS_HORIZ
    }
}

/// The transform type that suits an intra mode: sine transforms in the directions
/// that the prediction leaves.
pub open spec fn tx_type_for_mode(mode: PredictionMode) -> TxType {
    match mode {
        PredictionMode::V_PRED
        | PredictionMode::D113_PRED
        | PredictionMode::D67_PRED
        | PredictionMode::SMOOTH_V_PRED => TxType::ADST_DCT,
        PredictionMode::H_PRED
        | PredictionMode::D157_PRED
        | PredictionMode::D203_PRED
        | PredictionMode::SMOOTH_H_PRED => TxType::DCT_ADST,
        PredictionMode::D135_PRED | PredictionMode::SMOOTH_PRED | PredictionMode::PAETH_PRED => TxType::ADST_ADST,
        _ => TxType::DCT_DCT,
    }
}

/// The transform type of chroma that is predicted within the frame; prediction
/// from luma counts as a flat prediction.
pub fn uv_intra_mode_to_tx_type_context(pred: PredictionMode) -> (r: TxType)
    requires
        !pred.inter(),
    ensures
        r == tx_type_for_mode(pred),
{
    match pred {
        PredictionMode::V_PRED
        | PredictionMode::D113_PRED
        | PredictionMode::D67_PRED
        | PredictionMode::SMOOTH_V_PRED => TxType::ADST_DCT,
        PredictionMode::H_PRED
        | PredictionMode::D157_PRED
        | PredictionMode::D203_PRED
        | PredictionMode::SMOOTH_H_PRED => TxType::DCT_ADST,
        PredictionMode::D135_PRED | PredictionMode::SMOOTH_PRED | PredictionMode::PAETH_PRED => TxType::ADST_ADST,
        _ => TxType::DCT_DCT,
    }
}

/// The symbols that code a transform type: none where the set holds only one.
pub open spec fn tx_type_symbols(tx_size: TxSize, tx_type: TxType, y_mode: PredictionMode, is_inter: bool, reduced: bool) -> Seq<Symbol> {
    let set = tx_set_of(tx_size, is_inter, reduced);
    let index = set_index(set, is_inter);
    let sq = (imin(tx_size.wl(), tx_size.hl()) - 2) as usize;
    let dir = y_mode.idx() as usize;
    if set_len(set) > 1 {
        seq![
            Symbol {
                cdf: if is_inter {
                    if index == 1 {
                        Cdf::InterTx1(sq)
                    } else if index == 2 {
                        Cdf::InterTx2(sq)
                    } else {
                        Cdf::InterTx3(sq)
                    }
                } else if index == 1 {
                    Cdf::IntraTx1(sq, dir)
                } else {
                    Cdf::IntraTx2(sq, dir)
                },
                value: tx_symbol(set, tx_type) as u32,
            },
        ]
    } else {
        seq![]
    }
}

/// The logarithms of a size after `d` splits.
pub open spec fn after_splits(wl: int, hl: int, d: nat) -> (int, int)
    decreases d,
{
    if d == 0 {
        (wl, hl)
    } else {
        let p = after_splits(wl, hl, (d - 1) as nat);
        split_log2(p.0, p.1)
    }
}

/// The transform size is the block's largest one after `d` splits.
pub open spec fn at_depth(bsize: BlockSize, tx_size: TxSize, d: nat) -> bool {
    after_splits(imin(bsize.wl(), 6), imin(bsize.hl(), 6), d) == (tx_size.wl(), tx_size.hl())
}

/// How often the block's largest transform is split to give the size, which takes
/// at most two splits.
pub open spec fn tx_depth(bsize: BlockSize, tx_size: TxSize) -> nat {
    if at_depth(bsize, tx_size, 0) {
        0
    } else if at_depth(bsize, tx_size, 1) {
        1
    } else {
        2
    }
}

/// How often the block's largest transform is split to give the size.
fn tx_size_to_depth(tx_size: TxSize, bsize: BlockSize) -> (r: usize)
    requires
        at_depth(bsize, tx_size, 0) || at_depth(bsize, tx_size, 1) || at_depth(bsize, tx_size, 2),
    ensures
        r == tx_depth(bsize, tx_size),
        r <= 2,
{
    let first: TxSize = bsize.tx_size();
    let second: TxSize = first.sub_size();
    proof {
        reveal_with_fuel(after_splits, 3);
    }
    if tx_size.width_log2() == first.width_log2() && tx_size.height_log2() == first.height_log2() {
        0
    } else if tx_size.width_log2() == second.width_log2() && tx_size.height_log2() == second.height_log2() {
        1
    } else {
        2
    }
}

/// How often the block's largest transform can be split, less one.
pub open spec fn tx_size_category(bsize: BlockSize) -> int {
    imax(imin(bsize.wl(), 6), imin(bsize.hl(), 6)) - 3
}

/// How often the block's largest transform can be split, less one.
fn bsize_to_tx_size_cat(bsize: BlockSize) -> (r: usize)
    requires
        bsize != BlockSize::BLOCK_4X4,
    ensures
        r == tx_size_category(bsize),
        r <= 3,
{
    let mut tx_size: TxSize = bsize.tx_size();
    proof {
        if imax(tx_size.wl(), tx_size.hl()) == 2 {
            lemma_block_size_by_log2(bsize, BlockSize::BLOCK_4X4);
        }
    }
    let mut depth: usize = 0;
    let ghost total = imax(tx_size.wl(), tx_size.hl()) - 2;
    while tx_size.width_log2() != 2 || tx_size.height_log2() != 2
        invariant
            depth + imax(tx_size.wl(), tx_size.hl()) - 2 == total,
            0 <= depth,
            total <= 4,
        decreases imax(tx_size.wl(), tx_size.hl()),
    {
        tx_size = tx_size.sub_size();
        depth = depth + 1;
    }
    depth - 1
}

impl BlockContext {
    /// The context above reaches the width of the block's largest transform; an
    /// inter block above counts with its own width.
    pub open spec fn above_reaches(&self, bo: TileBlockOffset, wide: int) -> bool {
        let above = self.blocks.block(bo.x as int, bo.y - 1);
        if bo.y > 0 && above.mode.inter() { above.n4_w * 4 >= wide } else { self.above_tx_context@[bo.x as int] >= wide }
    }

    /// The context to the left reaches the height of the block's largest
    /// transform; an inter block to the left counts with its own height.
    pub open spec fn left_reaches(&self, bo: TileBlockOffset, high: int) -> bool {
        let left = self.blocks.block(bo.x - 1, bo.y as int);
        if bo.x > 0 && left.mode.inter() { left.n4_h * 4 >= high } else { self.left_tx_context@[y_in_sb(bo)] >= high }
    }

    /// The context of a transform depth: how many of the neighbours that exist
    /// reach the block's largest transform.
    pub open spec fn tx_size_context(&self, bo: TileBlockOffset, bsize: BlockSize) -> int {
        let wide = side_of(imin(bsize.wl(), 6));
        let high = side_of(imin(bsize.hl(), 6));
        (if bo.y > 0 && self.above_reaches(bo, wide) { 1int } else { 0 }) + (if bo.x > 0 && self.left_reaches(bo, high) { 1int } else { 0 })
    }
}

/// The symbol that codes the depth of an intra block's transform.
pub open spec fn tx_size_intra_symbol(bc: &BlockContext, bo: TileBlockOffset, bsize: BlockSize, tx_size: TxSize) -> Symbol {
    let ctx = bc.tx_size_context(bo, bsize) as usize;
    let cat = tx_size_category(bsize);
    Symbol {
        cdf: if cat > 0 { Cdf::TxSize((cat - 1) as usize, ctx) } else { Cdf::TxSize8x8(ctx) },
        value: tx_depth(bsize, tx_size) as u32,
    }
}

/// What has been written, and the edge contexts at that point.
pub struct TxTrace {
    pub symbols: Seq<Symbol>,
    pub above: Seq<u8>,
    pub left: Seq<u8>,
}

/// The width of the transform above: 64 outside the tile, and a skipped inter
/// block counts with its own width, where the transform is the block's first.
pub open spec fn above_tx_width(bc: &BlockContext, above: Seq<u8>, bo: TileBlockOffset, first_tx: bool) -> int {
    let blk = bc.blocks.block(bo.x as int, bo.y - 1);
    if first_tx && bo.y == 0 {
        64
    } else if first_tx && blk.skip && blk.mode.inter() {
        blk.bsize.w()
    } else {
        above[bo.x as int] as int
    }
}

/// The height of the transform to the left.
pub open spec fn left_tx_height(bc: &BlockContext, left: Seq<u8>, bo: TileBlockOffset, first_tx: bool) -> int {
    let blk = bc.blocks.block(bo.x - 1, bo.y as int);
    if first_tx && bo.x == 0 {
        64
    } else if first_tx && blk.skip && blk.mode.inter() {
        blk.bsize.h()
    } else {
        left[y_in_sb(bo)] as int
    }
}

/// The context of a split: by the size of the block's largest transform, whether
/// the transform is smaller than that, and how many neighbours are smaller than
/// the transform.
pub open spec fn split_context(bc: &BlockContext, t: TxTrace, bo: TileBlockOffset, bsize: BlockSize, tx_size: TxSize, tbx: int, tby: int) -> int {
    let above = above_tx_width(bc, t.above, bo, tby == 0) < tx_size.w();
    let left = left_tx_height(bc, t.left, bo, tbx == 0) < tx_size.h();
    let max = imax(imin(bsize.wl(), 6), imin(bsize.hl(), 6));
    let category = (if imax(tx_size.wl(), tx_size.hl()) != max { 1int } else { 0 }) + (6 - max) * 2;
    category * 3 + (if above { 1int } else { 0 }) + (if left { 1int } else { 0 })
}

/// What codes whether a transform block is split: nothing outside the tile, and
/// nothing where it cannot be.
pub open spec fn split_coded(bc: &BlockContext, t: TxTrace, bo: TileBlockOffset, bsize: BlockSize, tx_size: TxSize, split: bool, tbx: int, tby: int, depth: int) -> TxTrace {
    if tx_size != TxSize::TX_4X4 && depth < 2 {
        TxTrace {
            symbols: t.symbols.push(
                Symbol {
                    cdf: Cdf::TxfmPartition(split_context(bc, t, bo, bsize, tx_size, tbx, tby) as usize),
                    value: if split { 1 } else { 0 },
                },
            ),
            ..t
        }
    } else {
        t
    }
}

/// A transform block that is not split: its symbol, and its size in the edge
/// contexts.
pub open spec fn leaf_trace(bc: &BlockContext, t: TxTrace, bo: TileBlockOffset, bsize: BlockSize, tx_size: TxSize, tbx: int, tby: int, depth: int) -> TxTrace {
    if bo.x >= bc.blocks.cols || bo.y >= bc.blocks.rows {
        t
    } else {
        let u = split_coded(bc, t, bo, bsize, tx_size, false, tbx, tby, depth);
        TxTrace {
            symbols: u.symbols,
            above: filled(u.above, bo.x as int, tx_size.w() / 4, tx_size.w() as u8),
            left: filled(u.left, y_in_sb(bo), tx_size.h() / 4, tx_size.h() as u8),
        }
    }
}

/// The first `n` transform blocks, in raster order, of a block whose transform is
/// split once, `cols` to a row.
pub open spec fn leaves_trace(bc: &BlockContext, t: TxTrace, bo: TileBlockOffset, bsize: BlockSize, sub: TxSize, cols: int, n: int, depth: int) -> TxTrace
    decreases n,
{
    if n <= 0 {
        t
    } else {
        let p = leaves_trace(bc, t, bo, bsize, sub, cols, n - 1, depth);
        let bx = (n - 1) % cols;
        let by = (n - 1) / cols;
        let tx_bo = TileBlockOffset { x: (bo.x + bx * (sub.w() / 4)) as usize, y: (bo.y + by * (sub.h() / 4)) as usize };
        leaf_trace(bc, p, tx_bo, bsize, sub, bx, by, depth)
    }
}

/// The inter transform tree of a block: whether the transform is split, and then
/// the transform blocks, which are not split further.
pub open spec fn inter_trace(bc: &BlockContext, t: TxTrace, bo: TileBlockOffset, bsize: BlockSize, tx_size: TxSize, split: bool, tbx: int, tby: int, depth: int) -> TxTrace {
    let sub = tx_size.sub();
    if bo.x >= bc.blocks.cols || bo.y >= bc.blocks.rows {
        t
    } else if split {
        let cols = bsize.w() / sub.w();
        let rows = bsize.h() / sub.h();
        let u = split_coded(bc, t, bo, bsize, tx_size, true, tbx, tby, depth);
        leaves_trace(bc, u, bo, bsize, sub, cols, cols * rows, depth + 1)
    } else {
        leaf_trace(bc, t, bo, bsize, tx_size, tbx, tby, depth)
    }
}

impl ContextWriter {
    /// The edge contexts and what has been written.
    pub open spec fn trace(&self, symbols: Seq<Symbol>) -> TxTrace {
        TxTrace { symbols, above: self.bc.above_tx_context@, left: self.bc.left_tx_context@ }
    }

    /// Writes a transform type, where there is a choice.
    pub fn write_tx_type<W: Writer>(&mut self, w: &mut W, tx_size: TxSize, tx_type: TxType, y_mode: PredictionMode, is_inter: bool, use_reduced_tx_set: bool)
        requires
            tx_used(tx_set_of(tx_size, is_inter, use_reduced_tx_set), tx_type),
            !is_inter && set_len(tx_set_of(tx_size, is_inter, use_reduced_tx_set)) > 1 ==> !y_mode.inter() && y_mode != PredictionMode::UV_CFL_PRED,
        ensures
            *final(self) == *old(self),
            final(w).symbols() == old(w).symbols() + tx_type_symbols(tx_size, tx_type, y_mode, is_inter, use_reduced_tx_set),
    {
        let sq: usize = tx_size.sqr().index();
        let set: TxSet = get_tx_set(tx_size, is_inter, use_reduced_tx_set);
        let ghost before = w.symbols();
        if num_tx_set(set) > 1 {
            let index: i8 = get_tx_set_index(tx_size, is_inter, use_reduced_tx_set);
            let value: u32 = av1_tx_ind(set, tx_type);
            let cdf: Cdf = if is_inter {
                if index == 1 {
                    Cdf::InterTx1(sq)
                } else if index == 2 {
                    Cdf::InterTx2(sq)
                } else {
                    Cdf::InterTx3(sq)
                }
            } else if index == 1 {
                Cdf::IntraTx1(sq, y_mode.index())
            } else {
                Cdf::IntraTx2(sq, y_mode.index())
            };
            w.symbol_with_update(Symbol { cdf, value });
        }
        assert(w.symbols() =~= before + tx_type_symbols(tx_size, tx_type, y_mode, is_inter, use_reduced_tx_set));
    }

    /// The context of an intra block's transform depth.
    fn get_tx_size_context(&self, bo: TileBlockOffset, bsize: BlockSize) -> (r: usize)
        requires
            self.bc.wf(),
            bo.x < self.bc.blocks.cols,
            bo.y < self.bc.blocks.rows,
        ensures
            r == self.bc.tx_size_context(bo, bsize),
            r <= 2,
    {
        let max_tx_size: TxSize = bsize.tx_size();
        let wide: u8 = max_tx_size.width() as u8;
        let high: u8 = max_tx_size.height() as u8;
        let mut r: usize = 0;
        if bo.y > 0 {
            let blk: Block = self.bc.blocks.at(bo.x, bo.y - 1);
            let above: bool = if blk.is_inter() { blk.n4_w * 4 >= wide } else { self.bc.above_tx_context[bo.x] >= wide };
            if above {
                r = r + 1;
            }
        }
        if bo.x > 0 {
            let blk: Block = self.bc.blocks.at(bo.x - 1, bo.y);
            let left: bool = if blk.is_inter() { blk.n4_h * 4 >= high } else { self.bc.left_tx_context[bo.y % 16] >= high };
            if left {
                r = r + 1;
            }
        }
        r
    }

    /// Writes the depth of an intra block's transform.
    pub fn write_tx_size_intra<W: Writer>(&mut self, w: &mut W, bo: TileBlockOffset, bsize: BlockSize, tx_size: TxSize)
        requires
            old(self).bc.wf(),
            bo.x < old(self).bc.blocks.cols,
            bo.y < old(self).bc.blocks.rows,
            bsize != BlockSize::BLOCK_4X4,
            at_depth(bsize, tx_size, 0) || at_depth(bsize, tx_size, 1) || at_depth(bsize, tx_size, 2),
        ensures
            *final(self) == *old(self),
            final(w).symbols() == old(w).symbols().push(tx_size_intra_symbol(&old(self).bc, bo, bsize, tx_size)),
    {
        let ctx: usize = self.get_tx_size_context(bo, bsize);
        let depth: usize = tx_size_to_depth(tx_size, bsize);
        let cat: usize = bsize_to_tx_size_cat(bsize);
        let cdf: Cdf = if cat > 0 { Cdf::TxSize(cat - 1, ctx) } else { Cdf::TxSize8x8(ctx) };
        w.symbol_with_update(Symbol { cdf, value: depth as u32 });
    }

    /// The width of the transform above.
    fn get_above_tx_width(&self, bo: TileBlockOffset, first_tx: bool) -> (r: usize)
        requires
            self.bc.wf(),
            bo.x < self.bc.blocks.cols,
            bo.y < self.bc.blocks.rows,
        ensures
            r == above_tx_width(&self.bc, self.bc.above_tx_context@, bo, first_tx),
    {
        if first_tx {
            if bo.y == 0 {
                return 64;
            }
            let blk: Block = self.bc.blocks.at(bo.x, bo.y - 1);
            if blk.skip && blk.is_inter() {
                return blk.bsize.width();
            }
        }
        self.bc.above_tx_context[bo.x] as usize
    }

    /// The height of the transform to the left.
    fn get_left_tx_height(&self, bo: TileBlockOffset, first_tx: bool) -> (r: usize)
        requires
            self.bc.wf(),
            bo.x < self.bc.blocks.cols,
            bo.y < self.bc.blocks.rows,
        ensures
            r == left_tx_height(&self.bc, self.bc.left_tx_context@, bo, first_tx),
    {
        if first_tx {
            if bo.x == 0 {
                return 64;
            }
            let blk: Block = self.bc.blocks.at(bo.x - 1, bo.y);
            if blk.skip && blk.is_inter() {
                return blk.bsize.height();
            }
        }
        self.bc.left_tx_context[bo.y % 16] as usize
    }

    /// The context of a split.
    fn txfm_partition_context(&self, bo: TileBlockOffset, bsize: BlockSize, tx_size: TxSize, tbx: usize, tby: usize, Ghost(symbols): Ghost<Seq<Symbol>>) -> (r: usize)
        requires
            self.bc.wf(),
            bo.x < self.bc.blocks.cols,
            bo.y < self.bc.blocks.rows,
            tx_size != TxSize::TX_4X4,
        ensures
            r == split_context(&self.bc, self.trace(symbols), bo, bsize, tx_size, tbx as int, tby as int),
            bsize != BlockSize::BLOCK_4X4 && tx_size.wl() <= bsize.wl() && tx_size.hl() <= bsize.hl() ==> r < 21,
    {
        let above: bool = self.get_above_tx_width(bo, tby == 0) < tx_size.width();
        let left: bool = self.get_left_tx_height(bo, tbx == 0) < tx_size.height();
        let max: usize = bsize.tx_size().sqr_up().width_log2();
        let mut category: usize = (6 - max) * 2;
        if tx_size.sqr_up().width_log2() != max {
            category = category + 1;
        }
        let mut r: usize = category * 3;
        if above {
            r = r + 1;
        }
        if left {
            r = r + 1;
        }
        r
    }

    /// Writes the inter transform tree of a block: whether the transform is
    /// split, and the sizes that result in the edge contexts.
    pub fn write_tx_size_inter<W: Writer>(&mut self, w: &mut W, bo: TileBlockOffset, bsize: BlockSize, tx_size: TxSize, txfm_split: bool, tbx: usize, tby: usize, depth: usize)
        requires
            old(self).bc.wf(),
            txfm_split ==> bo.y <= usize::MAX - 64,
            bsize.wl() <= 6,
            bsize.hl() <= 6,
            tx_size.wl() <= bsize.wl(),
            tx_size.hl() <= bsize.hl(),
            y_in_sb(bo) + bsize.h() / 4 <= 16 || !txfm_split && y_in_sb(bo) + tx_size.h() / 4 <= 16,
            txfm_split ==> tx_size != TxSize::TX_4X4 && depth < 2,
            depth <= 2,
        ensures
            final(self).bc.wf(),
            final(self).bc.blocks == old(self).bc.blocks,
            final(self).trace(final(w).symbols()) == inter_trace(
                &old(self).bc,
                old(self).trace(old(w).symbols()),
                bo,
                bsize,
                tx_size,
                txfm_split,
                tbx as int,
                tby as int,
                depth as int,
            ),
        decreases if txfm_split { 1int } else { 0 },
    {
        if bo.x >= self.bc.blocks.cols || bo.y >= self.bc.blocks.rows {
            return;
        }
        let ghost bc0 = self.bc;
        let ghost t0 = self.trace(w.symbols());
        if tx_size != TxSize::TX_4X4 && depth < MAX_VARTX_DEPTH {
            let ctx: usize = self.txfm_partition_context(bo, bsize, tx_size, tbx, tby, Ghost(w.symbols()));
            w.symbol_with_update(Symbol { cdf: Cdf::TxfmPartition(ctx), value: if txfm_split { 1 } else { 0 } });
        }
        let ghost t1 = self.trace(w.symbols());
        assert(t1 == split_coded(&bc0, t0, bo, bsize, tx_size, txfm_split, tbx as int, tby as int, depth as int));
        if !txfm_split {
            self.bc.update_tx_size_context(bo, tx_size.block_size(), tx_size, false);
            return;
        }
        let sub: TxSize = tx_size.sub_size();
        let cols: usize = bsize.width_mi() / sub.width_mi();
        let rows: usize = bsize.height_mi() / sub.height_mi();
        proof {
            lemma_sub_counts(bsize, sub);
        }
        let mut by: usize = 0;
        while by < rows
            invariant
                txfm_split,
                by <= rows <= 16,
                cols <= 16,
                cols == bsize.w() / sub.w(),
                rows == bsize.h() / sub.h(),
                cols * (sub.w() / 4) == bsize.w() / 4,
                rows * (sub.h() / 4) == bsize.h() / 4,
                cols >= 1,
                bsize.wl() <= 6,
                bsize.hl() <= 6,
                sub.wl() <= bsize.wl(),
                sub.hl() <= bsize.hl(),
                self.bc.wf(),
                self.bc.blocks == bc0.blocks,
                bo.x < bc0.blocks.cols,
                bo.y <= usize::MAX - 64,
                y_in_sb(bo) + bsize.h() / 4 <= 16,
                depth < 2,
                self.trace(w.symbols()) == leaves_trace(&bc0, t1, bo, bsize, sub, cols as int, by * cols, depth + 1),
            decreases rows - by,
        {
            let mut bx: usize = 0;
            while bx < cols
                invariant
                    txfm_split,
                    bx <= cols,
                    by < rows <= 16,
                    cols <= 16,
                    cols == bsize.w() / sub.w(),
                    rows == bsize.h() / sub.h(),
                    cols * (sub.w() / 4) == bsize.w() / 4,
                    rows * (sub.h() / 4) == bsize.h() / 4,
                    cols >= 1,
                    bsize.wl() <= 6,
                    bsize.hl() <= 6,
                    sub.wl() <= bsize.wl(),
                    sub.hl() <= bsize.hl(),
                    self.bc.wf(),
                    self.bc.blocks == bc0.blocks,
                    bo.x < bc0.blocks.cols,
                    bo.y <= usize::MAX - 64,
                    y_in_sb(bo) + bsize.h() / 4 <= 16,
                    depth < 2,
                    self.trace(w.symbols()) == leaves_trace(&bc0, t1, bo, bsize, sub, cols as int, by * cols + bx, depth + 1),
                decreases cols - bx,
            {
                proof {
                    lemma_sub_position(bo, bsize, sub, cols as int, rows as int, bx as int, by as int);
                }
                let tx_bo: TileBlockOffset = TileBlockOffset { x: bo.x + bx * sub.width_mi(), y: bo.y + by * sub.height_mi() };
                let ghost before = self.trace(w.symbols());
                let ghost bc1 = self.bc;
                self.write_tx_size_inter(w, tx_bo, bsize, sub, false, bx, by, depth + 1);
                proof {
                    let n = by * cols + bx + 1;
                    assert((n - 1) % (cols as int) == bx && (n - 1) / (cols as int) == by) by {
                        vstd::arithmetic::div_mod::lemma_fundamental_div_mod_converse(n - 1, cols as int, by as int, bx as int);
                    }
                    lemma_leaf_same_blocks(&bc0, &bc1, before, tx_bo, bsize, sub, bx as int, by as int, depth + 1);
                }
                bx = bx + 1;
            }
            assert(by * cols + cols == (by + 1) * cols) by (nonlinear_arith);
            by = by + 1;
        }
        assert(rows * cols == cols * rows) by (nonlinear_arith);
    }
}

/// The traces depend on the coded blocks only.
proof fn lemma_leaf_same_blocks(a: &BlockContext, b: &BlockContext, t: TxTrace, bo: TileBlockOffset, bsize: BlockSize, tx_size: TxSize, tbx: int, tby: int, depth: int)
    requires
        a.blocks == b.blocks,
    ensures
        leaf_trace(a, t, bo, bsize, tx_size, tbx, tby, depth) == leaf_trace(b, t, bo, bsize, tx_size, tbx, tby, depth),
{
}

/// A block is tiled by a transform that it covers.
pub proof fn lemma_sub_counts(bsize: BlockSize, sub: TxSize)
    requires
        bsize.wl() <= 6,
        bsize.hl() <= 6,
        sub.wl() <= bsize.wl(),
        sub.hl() <= bsize.hl(),
    ensures
        1 <= bsize.w() / sub.w() <= 16,
        1 <= bsize.h() / sub.h() <= 16,
        (bsize.w() / 4) / (sub.w() / 4) == bsize.w() / sub.w(),
        (bsize.h() / 4) / (sub.h() / 4) == bsize.h() / sub.h(),
        (bsize.w() / sub.w()) * (sub.w() / 4) == bsize.w() / 4,
        (bsize.h() / sub.h()) * (sub.h() / 4) == bsize.h() / 4,
{
    lemma_side_quotient(bsize.wl(), sub.wl());
    lemma_side_quotient(bsize.hl(), sub.hl());
}

proof fn lemma_side_quotient(b: int, s: int)
    requires
        2 <= s <= b <= 6,
    ensures
        1 <= side_of(b) / side_of(s) <= 16,
        (side_of(b) / 4) / (side_of(s) / 4) == side_of(b) / side_of(s),
        (side_of(b) / side_of(s)) * (side_of(s) / 4) == side_of(b) / 4,
{
    let q = side_of(b) / side_of(s);
    if s == 2 {
        assert(side_of(b) / 4 == q);
    } else if s == 3 {
        assert(side_of(b) / 8 == q);
    } else if s == 4 {
        assert(side_of(b) / 16 == q);
    } else if s == 5 {
        assert(side_of(b) / 32 == q);
    } else {
        assert(side_of(b) / 64 == q);
    }
}

proof fn lemma_sub_position(bo: TileBlockOffset, bsize: BlockSize, sub: TxSize, cols: int, rows: int, bx: int, by: int)
    requires
        0 <= bx < cols <= 16,
        0 <= by < rows <= 16,
        cols * (sub.w() / 4) == bsize.w() / 4,
        rows * (sub.h() / 4) == bsize.h() / 4,
        y_in_sb(bo) + bsize.h() / 4 <= 16,
        bsize.wl() <= 6,
        bo.y <= usize::MAX - 64,
    ensures
        0 <= bx * (sub.w() / 4) < 16,
        0 <= by * (sub.h() / 4) < 16,
        y_in_sb(TileBlockOffset { x: bo.x, y: (bo.y + by * (sub.h() / 4)) as usize }) + sub.h() / 4 <= 16,
{
    let w = sub.w() / 4;
    let h = sub.h() / 4;
    assert(bx * w + w <= cols * w && 0 <= bx * w) by (nonlinear_arith)
        requires 0 <= bx, bx + 1 <= cols, w >= 1;
    assert(by * h + h <= rows * h && 0 <= by * h) by (nonlinear_arith)
        requires 0 <= by, by + 1 <= rows, h >= 1;
}

/// A coefficient type.
pub trait Coefficient: Copy {
    /// The coefficient's value.
    spec fn val(&self) -> int;

    /// The smallest value of the type, whose magnitude the type cannot hold.
    spec fn min_val() -> int;

    /// The magnitude, at most 127.
    fn level(self) -> (r: u8)
        requires
            self.val() > Self::min_val(),
        ensures
            r == imin(iabs(self.val()), 127),
    ;
}

impl Coefficient for i16 {
    open spec fn val(&self) -> int {
        *self as int
    }

    open spec fn min_val() -> int {
        -32768
    }

    fn level(self) -> (r: u8) {
        let m: i16 = if self < 0 { -self } else { self };
        if m < 127 { m as u8 } else { 127 }
    }
}

impl Coefficient for i32 {
    open spec fn val(&self) -> int {
        *self as int
    }

    open spec fn min_val() -> int {
        i32::MIN as int
    }

    fn level(self) -> (r: u8) {
        let m: i32 = if self < 0 { -self } else { self };
        if m < 127 { m as u8 } else { 127 }
    }
}

/// The end-of-block position as a group and the offset into it. Groups double in
/// size: after the single positions zero, one and two, group `t` starts at
/// `2^(t-2) + 1`; the last starts at 513.
pub open spec fn eob_token(eob: int) -> (int, int) {
    if eob <= 1 {
        (eob, 0)
    } else {
        let t = imin(floor_log2((eob - 1) as nat) as int + 2, 11);
        (t, eob - eob_group_start(t))
    }
}

/// The first end-of-block position of a group.
pub open spec fn eob_group_start(t: int) -> int {
    if t <= 1 { t } else { pow2((t - 2) as nat) as int + 1 }
}

/// How many bits code the offset into a group.
pub open spec fn eob_offset_bits(t: int) -> int {
    if t <= 2 { 0 } else { t - 2 }
}

/// The group and the offset give the position back, and up to the largest coded
/// block the offset fits its bits.
pub proof fn law_eob_token_is_reversible(eob: int)
    requires
        0 <= eob <= 1024,
    ensures
        ({
            let (t, extra) = eob_token(eob);
            &&& 0 <= t <= 11
            &&& eob_group_start(t) + extra == eob
            &&& 0 <= extra < pow2(eob_offset_bits(t) as nat)
        }),
{
    lemma2_to64();
    if eob >= 2 {
        let l = floor_log2((eob - 1) as nat);
        crate::util::lemma_floor_log2((eob - 1) as nat);
        crate::util::lemma_floor_log2_below((eob - 1) as nat, 10);
        lemma_pow2_unfold(l + 1);
    }
}

/// A level as it counts in a neighbourhood.
pub open spec fn mag3(levels: Seq<u8>, pos: int) -> int {
    imin(3, levels[pos] as int)
}

/// The neighbourhood sum of the position `pos` of a padded column-major buffer
/// with `stride` entries to a column: two neighbours in every class, and three
/// more by the class.
pub open spec fn nz_mag(levels: Seq<u8>, pos: int, stride: int, class: TxClass) -> int {
    mag3(levels, pos + 1) + mag3(levels, pos + stride) + match class {
        TxClass::TX_CLASS_2D => mag3(levels, pos + stride + 1) + mag3(levels, pos + 2) + mag3(levels, pos + 2 * stride),
        TxClass::TX_CLASS_VERT => mag3(levels, pos + 2) + mag3(levels, pos + 3) + mag3(levels, pos + 4),
        TxClass::TX_CLASS_HORIZ => mag3(levels, pos + 2 * stride) + mag3(levels, pos + 3 * stride) + mag3(levels, pos + 4 * stride),
    }
}

/// The offset of a position's context. In two dimensions it depends on the
/// distance from the first coefficient, and on the two rows or columns nearest
/// to it in a transform that is not square; otherwise on the position along the
/// direction.
pub open spec fn nz_offset(tx_size: TxSize, class: TxClass, row: int, col: int) -> int {
    match class {
        TxClass::TX_CLASS_2D => if row == 0 && col == 0 {
            0
        } else if tx_size.wl() < tx_size.hl() && row < 2 {
            11
        } else if tx_size.wl() > tx_size.hl() && col < 2 {
            16
        } else if row + col < 2 {
            1
        } else if row + col < 4 {
            6
        } else {
            21
        },
        TxClass::TX_CLASS_HORIZ => 26 + 5 * imin(col, 2),
        TxClass::TX_CLASS_VERT => 26 + 5 * imin(row, 2),
    }
}

/// The context of the base level at a position that is not the last.
pub open spec fn nz_ctx(levels: Seq<u8>, stride: int, tx_size: TxSize, class: TxClass, row: int, col: int) -> int {
    if class == TxClass::TX_CLASS_2D && row == 0 && col == 0 {
        0
    } else {
        imin((nz_mag(levels, col * stride + row, stride, class) + 1) / 2, 4) + nz_offset(tx_size, class, row, col)
    }
}

/// The context of the base level at a raster position that is not the last.
pub open spec fn position_ctx(levels: Seq<u8>, tx_size: TxSize, class: TxClass, pos: int) -> int {
    let height = side_of(imin(tx_size.hl(), 5));
    nz_ctx(levels, height + 4, tx_size, class, pos % height, pos / height)
}

/// `area` holds the context of every position of the coded area, column by
/// column.
pub open spec fn holds_contexts(area: Seq<u8>, levels: Seq<u8>, tx_size: TxSize, class: TxClass) -> bool {
    let width = side_of(imin(tx_size.wl(), 5));
    let height = side_of(imin(tx_size.hl(), 5));
    forall|col: int, row: int| 0 <= col < width && 0 <= row < height ==> #[trigger] area[col * height + row] == nz_ctx(levels, height + 4, tx_size, class, row, col)
}

/// The contexts of a whole area agree with those found position by position, at
/// every raster position.
pub proof fn law_area_matches_positions(area: Seq<u8>, levels: Seq<u8>, tx_size: TxSize, class: TxClass, pos: int)
    requires
        holds_contexts(area, levels, tx_size, class),
        0 <= pos < side_of(imin(tx_size.wl(), 5)) * side_of(imin(tx_size.hl(), 5)),
    ensures
        area[pos] == position_ctx(levels, tx_size, class, pos),
{
    let width = side_of(imin(tx_size.wl(), 5));
    let height = side_of(imin(tx_size.hl(), 5));
    lemma_position(pos, width, height);
    assert(area[(pos / height) * height + pos % height] == nz_ctx(levels, height + 4, tx_size, class, pos % height, pos / height));
}

/// The offsets no longer change from row and column four on, and in one direction
/// from the third position on.
pub proof fn law_offsets_saturate(tx_size: TxSize, class: TxClass, row: int, col: int)
    requires
        0 <= row,
        0 <= col,
    ensures
        nz_offset(tx_size, class, row, col) == nz_offset(tx_size, class, imin(row, 4), imin(col, 4)),
        class == TxClass::TX_CLASS_VERT ==> nz_offset(tx_size, class, row, col) == nz_offset(tx_size, class, imin(row, 2), 0),
        class == TxClass::TX_CLASS_HORIZ ==> nz_offset(tx_size, class, row, col) == nz_offset(tx_size, class, 0, imin(col, 2)),
{
}

/// The context of the base level at the last position, by its place in the scan.
pub open spec fn eob_ctx(scan_idx: int, area: int) -> int {
    if scan_idx == 0 {
        0
    } else if scan_idx <= area / 8 {
        1
    } else if scan_idx <= area / 4 {
        2
    } else {
        3
    }
}

/// How many levels the neighbourhoods of a `width` by `height` area reach.
pub open spec fn levels_needed(class: TxClass, width: int, height: int) -> int {
    let stride = height + 4;
    height + match class {
        TxClass::TX_CLASS_2D => (width + 1) * stride,
        TxClass::TX_CLASS_HORIZ => (width + 3) * stride,
        TxClass::TX_CLASS_VERT => width * stride,
    }
}

/// The neighbourhood of a position inside the area lies inside the buffer.
proof fn lemma_reach(class: TxClass, width: int, height: int, row: int, col: int)
    requires
        0 <= row < height,
        0 <= col < width,
        4 <= height,
    ensures
        ({
            let stride = height + 4;
            let pos = col * stride + row;
            let n = levels_needed(class, width, height);
            &&& 0 <= pos
            &&& pos + stride < n
            &&& pos + 4 < n
            &&& class != TxClass::TX_CLASS_VERT ==> pos + stride + 1 < n && pos + 2 * stride < n
            &&& class == TxClass::TX_CLASS_HORIZ ==> pos + 3 * stride < n && pos + 4 * stride < n
        }),
{
    let stride = height + 4;
    assert(0 <= col * stride && col * stride + stride <= width * stride) by (nonlinear_arith)
        requires 0 <= col, col + 1 <= width, stride > 0;
    assert((width + 1) * stride == width * stride + stride && (width + 3) * stride == width * stride + 3 * stride) by (nonlinear_arith);
}

fn m3(v: u8) -> (r: usize)
    ensures
        r == imin(3, v as int),
{
    if v < 3 { v as usize } else { 3 }
}

impl ContextWriter {
    /// The context of a transform block's size: the mean of the logarithms of its
    /// sides, rounded up.
    pub fn get_txsize_entropy_ctx(tx_size: TxSize) -> (r: usize)
        ensures
            r == (imin(tx_size.wl(), tx_size.hl()) - 2 + imax(tx_size.wl(), tx_size.hl()) - 2 + 1) / 2,
    {
        (tx_size.sqr().index() + tx_size.sqr_up().index() + 1) / 2
    }

    /// Fills the padded buffer of levels from the coefficients, column by column.
    pub fn txb_init_levels<T: Coefficient>(&self, coeffs: &[T], height: usize, levels: &mut [u8], levels_stride: usize)
        requires
            0 < height <= levels_stride,
            forall|i: int| 0 <= i < coeffs.len() ==> (#[trigger] coeffs@[i]).val() > T::min_val(),
        ensures
            final(levels).len() == old(levels).len(),
            forall|c: int, r: int| 0 <= c < imin(coeffs.len() as int / height as int, old(levels).len() as int / levels_stride as int) && 0 <= r < height ==>
                #[trigger] final(levels)@[c * levels_stride + r] == imin(iabs(coeffs@[c * height + r].val()), 127),
            forall|i: int| 0 <= i < old(levels).len()
                && !(i / (levels_stride as int) < imin(coeffs.len() as int / height as int, old(levels).len() as int / levels_stride as int) && i % (levels_stride as int) < height) ==>
                #[trigger] final(levels)@[i] == old(levels)@[i],
    {
        let a: usize = coeffs.len() / height;
        let b: usize = levels.len() / levels_stride;
        let cols: usize = if a < b { a } else { b };
        let ghost orig = levels@;
        let ghost n = levels.len() as int;
        let mut c: usize = 0;
        while c < cols
            invariant
                c <= cols,
                0 < height <= levels_stride,
                cols <= coeffs.len() as int / height as int,
                cols <= n / (levels_stride as int),
                levels@.len() == n,
                n <= usize::MAX,
                orig.len() == n,
                forall|i: int| 0 <= i < coeffs.len() ==> (#[trigger] coeffs@[i]).val() > T::min_val(),
                forall|i: int, r: int| 0 <= i < c && 0 <= r < height ==> #[trigger] levels@[i * levels_stride + r] == imin(iabs(coeffs@[i * height + r].val()), 127),
                forall|i: int| 0 <= i < n && !(i / (levels_stride as int) < c && i % (levels_stride as int) < height) ==> #[trigger] levels@[i] == orig[i],
            decreases cols - c,
        {
            let mut r: usize = 0;
            while r < height
                invariant
                    c < cols,
                    r <= height,
                    0 < height <= levels_stride,
                    cols <= coeffs.len() as int / height as int,
                    cols <= n / (levels_stride as int),
                    levels@.len() == n,
                    n <= usize::MAX,
                    orig.len() == n,
                    forall|i: int| 0 <= i < coeffs.len() ==> (#[trigger] coeffs@[i]).val() > T::min_val(),
                    forall|i: int, j: int| 0 <= i && 0 <= j < height && (i < c || i == c && j < r) ==>
                        #[trigger] levels@[i * levels_stride + j] == imin(iabs(coeffs@[i * height + j].val()), 127),
                    forall|i: int| 0 <= i < n && !((i / (levels_stride as int) < c || i / (levels_stride as int) == c && i % (levels_stride as int) < r) && i % (levels_stride as int) < height) ==>
                        #[trigger] levels@[i] == orig[i],
                decreases height - r,
            {
                proof {
                    lemma_chunk(c as int, r as int, height as int, coeffs.len() as int);
                    lemma_chunk(c as int, r as int, levels_stride as int, n);
                }
                let ghost before = levels@;
                let v: u8 = coeffs[c * height + r].level();
                let at: usize = c * levels_stride + r;
                levels[at] = v;
                proof {
                    assert(levels@ == before.update(at as int, v));
                    assert forall|i: int, j: int| 0 <= i && 0 <= j < height && (i < c || i == c && j < r + 1) implies
                        #[trigger] levels@[i * levels_stride + j] == imin(iabs(coeffs@[i * height + j].val()), 127) by {
                        lemma_chunk(i, j, levels_stride as int, n);
                        if i * levels_stride + j == at {
                            assert(i == c && j == r);
                        } else {
                            assert(levels@[i * levels_stride + j] == before[i * levels_stride + j]);
                        }
                    }
                }
                r = r + 1;
            }
            c = c + 1;
        }
    }

    /// The base two logarithm of the height of the coded area.
    pub fn get_txb_bhl(tx_size: TxSize) -> (r: usize)
        ensures
            r == imin(tx_size.hl(), 5),
    {
        tx_size.coded().height_log2()
    }

    /// The end-of-block position as a group and the offset into it.
    pub fn get_eob_pos_token(eob: u16) -> (r: (u32, u32))
        ensures
            (r.0 as int, r.1 as int) == eob_token(eob as int),
    {
        if eob <= 1 {
            return (eob as u32, 0);
        }
        let l: i32 = crate::util::ulog2((eob - 1) as u32);
        let t: u32 = if l + 2 < 11 { (l + 2) as u32 } else { 11 };
        proof {
            crate::util::lemma_floor_log2((eob - 1) as nat);
            lemma2_to64();
            crate::util::lemma_one_shl_i64((t - 2) as u32);
            if l + 2 > 11 {
                lemma_pow2_strictly_increases(9, l as nat);
            }
        }
        let start: u32 = (1i64 << (t - 2)) as u32 + 1;
        (t, eob as u32 - start)
    }

    /// The neighbourhood sum of the first entry of `levels`.
    pub fn get_nz_mag(levels: &[u8], bhl: usize, tx_class: TxClass) -> (r: usize)
        requires
            2 <= bhl <= 5,
            levels.len() > side_of(bhl as int) + 4,
            tx_class != TxClass::TX_CLASS_VERT ==> levels.len() > 2 * (side_of(bhl as int) + 4),
            tx_class == TxClass::TX_CLASS_HORIZ ==> levels.len() > 4 * (side_of(bhl as int) + 4),
        ensures
            r == nz_mag(levels@, 0, side_of(bhl as int) + 4, tx_class),
            r <= 15,
    {
        Self::stencil(levels, 0, crate::transform::side(bhl) + TX_PAD_HOR, tx_class)
    }

    /// The offset of a position's context.
    fn nz_map_ctx_offset(tx_size: TxSize, tx_class: TxClass, row: usize, col: usize) -> (r: usize)
        requires
            row < 32,
            col < 32,
        ensures
            r == nz_offset(tx_size, tx_class, row as int, col as int),
            r <= 36,
    {
        match tx_class {
            TxClass::TX_CLASS_2D => {
                let wl: usize = tx_size.width_log2();
                let hl: usize = tx_size.height_log2();
                if row == 0 && col == 0 {
                    0
                } else if wl < hl && row < 2 {
                    11
                } else if wl > hl && col < 2 {
                    16
                } else if row + col < 2 {
                    1
                } else if row + col < 4 {
                    6
                } else {
                    21
                }
            },
            TxClass::TX_CLASS_HORIZ => if col < 2 { 26 + 5 * col } else { 36 },
            TxClass::TX_CLASS_VERT => if row < 2 { 26 + 5 * row } else { 36 },
        }
    }

    /// The context of a position from its neighbourhood sum.
    fn get_nz_map_ctx_from_stats(stats: usize, row: usize, col: usize, tx_size: TxSize, tx_class: TxClass) -> (r: usize)
        requires
            stats <= 15,
            row < 32,
            col < 32,
        ensures
            r == if tx_class == TxClass::TX_CLASS_2D && row == 0 && col == 0 {
                0
            } else {
                imin((stats as int + 1) / 2, 4) + nz_offset(tx_size, tx_class, row as int, col as int)
            },
            r <= 40,
    {
        if tx_class == TxClass::TX_CLASS_2D && row == 0 && col == 0 {
            return 0;
        }
        let half: usize = (stats + 1) / 2;
        let ctx: usize = if half < 4 { half } else { 4 };
        ctx + Self::nz_map_ctx_offset(tx_size, tx_class, row, col)
    }

    /// The context of the base level at one position of the scan, from the levels
    /// around it.
    pub fn get_nz_map_ctx(levels: &[u8], coeff_idx: usize, bhl: usize, area: usize, scan_idx: usize, is_eob: bool, tx_size: TxSize, tx_class: TxClass) -> (r: usize)
        requires
            bhl == imin(tx_size.hl(), 5),
            area == side_of(imin(tx_size.wl(), 5)) * side_of(bhl as int),
            coeff_idx < area,
            levels.len() >= levels_needed(tx_class, side_of(imin(tx_size.wl(), 5)), side_of(bhl as int)),
        ensures
            r == if is_eob { eob_ctx(scan_idx as int, area as int) } else { position_ctx(levels@, tx_size, tx_class, coeff_idx as int) },
            r <= 40,
    {
        if is_eob {
            if scan_idx == 0 {
                return 0;
            }
            if scan_idx <= area / 8 {
                return 1;
            }
            if scan_idx <= area / 4 {
                return 2;
            }
            return 3;
        }
        let height: usize = crate::transform::side(bhl);
        let width: usize = tx_size.coded().width();
        let col: usize = coeff_idx / height;
        let row: usize = coeff_idx % height;
        proof {
            lemma_position(coeff_idx as int, width as int, height as int);
            lemma_reach(tx_class, width as int, height as int, row as int, col as int);
        }
        let padded_idx: usize = col * (height + TX_PAD_HOR) + row;
        let rest: &[u8] = vstd::slice::slice_subrange(levels, padded_idx, levels.len());
        let stats: usize = Self::get_nz_mag(rest, bhl, tx_class);
        assert(stats == nz_mag(levels@, padded_idx as int, height + 4, tx_class));
        Self::get_nz_map_ctx_from_stats(stats, row, col, tx_size, tx_class)
    }

    /// The neighbourhood sum at `p` of a buffer with `stride` entries to a column.
    fn stencil(levels: &[u8], p: usize, stride: usize, tx_class: TxClass) -> (r: usize)
        requires
            8 <= stride <= 36,
            p + stride < levels.len(),
            tx_class != TxClass::TX_CLASS_VERT ==> p + 2 * stride < levels.len(),
            tx_class == TxClass::TX_CLASS_HORIZ ==> p + 4 * stride < levels.len(),
        ensures
            r == nz_mag(levels@, p as int, stride as int, tx_class),
            r <= 15,
    {
        let near: usize = m3(levels[p + 1]) + m3(levels[p + stride]);
        match tx_class {
            TxClass::TX_CLASS_2D => near + m3(levels[p + stride + 1]) + m3(levels[p + 2]) + m3(levels[p + 2 * stride]),
            TxClass::TX_CLASS_VERT => near + m3(levels[p + 2]) + m3(levels[p + 3]) + m3(levels[p + 4]),
            TxClass::TX_CLASS_HORIZ => near + m3(levels[p + 2 * stride]) + m3(levels[p + 3 * stride]) + m3(levels[p + 4 * stride]),
        }
    }

    /// The contexts of the base levels of every position of the coded area at
    /// once, column by column.
    pub fn nz_map_area_kernel(levels: &[u8], height: usize, width: usize, tx_size: TxSize, tx_class: TxClass, out: &mut [u8; 1024])
        requires
            height == side_of(imin(tx_size.hl(), 5)),
            width == side_of(imin(tx_size.wl(), 5)),
            levels.len() >= levels_needed(tx_class, width as int, height as int),
        ensures
            holds_contexts(final(out)@, levels@, tx_size, tx_class),
            forall|pos: int| width * height <= pos < 1024 ==> #[trigger] final(out)@[pos] == old(out)@[pos],
    {
        let stride: usize = height + TX_PAD_HOR;
        let ghost orig = out@;
        let ghost h = height as int;
        assert(width * height <= 1024) by (nonlinear_arith)
            requires width <= 32, height <= 32;
        let mut c: usize = 0;
        while c < width
            invariant
                c <= width <= 32,
                4 <= height <= 32,
                h == height,
                stride == height + 4,
                height == side_of(imin(tx_size.hl(), 5)),
                width == side_of(imin(tx_size.wl(), 5)),
                width * height <= 1024,
                levels.len() >= levels_needed(tx_class, width as int, height as int),
                forall|pos: int| 0 <= pos < c * height ==> #[trigger] out@[pos] == nz_ctx(levels@, stride as int, tx_size, tx_class, pos % h, pos / h),
                forall|pos: int| c * height <= pos < 1024 ==> #[trigger] out@[pos] == orig[pos],
            decreases width - c,
        {
            let mut r: usize = 0;
            while r < height
                invariant
                    c < width <= 32,
                    r <= height <= 32,
                    4 <= height,
                    h == height,
                    stride == height + 4,
                    height == side_of(imin(tx_size.hl(), 5)),
                    width == side_of(imin(tx_size.wl(), 5)),
                    width * height <= 1024,
                    levels.len() >= levels_needed(tx_class, width as int, height as int),
                    forall|pos: int| 0 <= pos < c * height + r ==> #[trigger] out@[pos] == nz_ctx(levels@, stride as int, tx_size, tx_class, pos % h, pos / h),
                    forall|pos: int| c * height + r <= pos < 1024 ==> #[trigger] out@[pos] == orig[pos],
                decreases height - r,
            {
                proof {
                    lemma_reach(tx_class, width as int, h, r as int, c as int);
                    assert(c * height + height <= width * height && 0 <= c * height) by (nonlinear_arith)
                        requires c + 1 <= width, height >= 0;
                    vstd::arithmetic::div_mod::lemma_fundamental_div_mod_converse(c * height + r, h, c as int, r as int);
                }
                let p: usize = c * stride + r;
                let mag: usize = Self::stencil(levels, p, stride, tx_class);
                let ctx: usize = Self::get_nz_map_ctx_from_stats(mag, r, c, tx_size, tx_class);
                assert(ctx == nz_ctx(levels@, stride as int, tx_size, tx_class, r as int, c as int));
                let at: usize = c * height + r;
                let ghost before = out@;
                out[at] = ctx as u8;
                proof {
                    assert forall|pos: int| 0 <= pos < c * height + r + 1 implies #[trigger] out@[pos] == nz_ctx(levels@, stride as int, tx_size, tx_class, pos % h, pos / h) by {
                        if pos < at {
                            assert(out@[pos] == before[pos]);
                        }
                    }
                }
                r = r + 1;
            }
            assert(c * height + height == (c + 1) * height) by (nonlinear_arith);
            c = c + 1;
        }
        proof {
            assert forall|col: int, row: int| 0 <= col < width && 0 <= row < height implies #[trigger] out@[col * height + row] == nz_ctx(
                levels@, height + 4, tx_size, tx_class, row, col) by {
                assert(0 <= col * height + row < width * height) by (nonlinear_arith)
                    requires 0 <= col, col + 1 <= width, 0 <= row < height;
                vstd::arithmetic::div_mod::lemma_fundamental_div_mod_converse(col * height + row, h, col, row);
            }
        }
    }

    /// The contexts of the base levels of the first `eob` positions of a scan, in
    /// scan order. With `racecar` they are read off the contexts of the whole
    /// area, otherwise found position by position; the result is the same.
    pub fn get_nz_map_contexts(&self, levels: &[u8], scan: &[u16], eob: u16, tx_size: TxSize, tx_class: TxClass, racecar: bool) -> (r: Vec<i8>)
        requires
            1 <= eob <= scan.len(),
            forall|i: int| 0 <= i < eob ==> (#[trigger] scan@[i]) < side_of(imin(tx_size.wl(), 5)) * side_of(imin(tx_size.hl(), 5)),
            levels.len() >= levels_needed(tx_class, side_of(imin(tx_size.wl(), 5)), side_of(imin(tx_size.hl(), 5))),
        ensures
            r.len() == eob,
            forall|i: int| 0 <= i < eob ==> #[trigger] r@[i] == scan_ctx(levels@, scan@, eob as int, tx_size, tx_class, i),
    {
        let bhl: usize = Self::get_txb_bhl(tx_size);
        let coded: TxSize = tx_size.coded();
        let area: usize = coded.area();
        let n: usize = eob as usize;
        let height: usize = coded.height();
        let width: usize = coded.width();
        assert(area == width * height);
        assert(width * height <= 1024) by (nonlinear_arith)
            requires width <= 32, height <= 32;
        let mut out: Vec<i8> = Vec::new();
        if !racecar {
            let mut i: usize = 0;
            while i < n
                invariant
                    i <= n == eob,
                    n <= scan.len(),
                    bhl == imin(tx_size.hl(), 5),
                    area == side_of(imin(tx_size.wl(), 5)) * side_of(bhl as int),
                    forall|i: int| 0 <= i < eob ==> (#[trigger] scan@[i]) < side_of(imin(tx_size.wl(), 5)) * side_of(imin(tx_size.hl(), 5)),
                    levels.len() >= levels_needed(tx_class, side_of(imin(tx_size.wl(), 5)), side_of(imin(tx_size.hl(), 5))),
                    out.len() == i,
                    forall|k: int| 0 <= k < i ==> #[trigger] out@[k] == scan_ctx(levels@, scan@, eob as int, tx_size, tx_class, k),
                decreases n - i,
            {
                let ctx: usize = Self::get_nz_map_ctx(levels, scan[i] as usize, bhl, area, i, i == n - 1, tx_size, tx_class);
                out.push(ctx as i8);
                i = i + 1;
            }
            return out;
        }
        let mut ctx_area: [u8; 1024] = [0; 1024];
        Self::nz_map_area_kernel(levels, height, width, tx_size, tx_class, &mut ctx_area);
        let last: usize = n - 1;
        let mut i: usize = 0;
        while i < last
            invariant
                i <= last,
                last + 1 == eob,
                eob <= scan.len(),
                height == side_of(imin(tx_size.hl(), 5)),
                width == side_of(imin(tx_size.wl(), 5)),
                width * height <= 1024,
                forall|i: int| 0 <= i < eob ==> (#[trigger] scan@[i]) < side_of(imin(tx_size.wl(), 5)) * side_of(imin(tx_size.hl(), 5)),
                holds_contexts(ctx_area@, levels@, tx_size, tx_class),
                out.len() == i,
                forall|k: int| 0 <= k < i ==> #[trigger] out@[k] == scan_ctx(levels@, scan@, eob as int, tx_size, tx_class, k),
            decreases last - i,
        {
            let pos: usize = scan[i] as usize;
            proof {
                let h = height as int;
                assert(scan@[i as int] < width * height);
                law_area_matches_positions(ctx_area@, levels@, tx_size, tx_class, pos as int);
                assert(0 <= ctx_area@[pos as int] <= 40) by {
                    lemma_nz_ctx_small(levels@, height + 4, tx_size, tx_class, pos as int % h, pos as int / h);
                }
            }
            out.push(ctx_area[pos] as i8);
            i = i + 1;
        }
        let eob_ctx: i8 = if last == 0 {
            0
        } else if last <= area / 8 {
            1
        } else if last <= area / 4 {
            2
        } else {
            3
        };
        out.push(eob_ctx);
        out
    }

    /// The context of the levels above the base ones: half the sum of three
    /// neighbours, and whether the position is the first or near the edge.
    pub fn get_br_ctx(levels: &[u8], coeff_idx: usize, bhl: usize, tx_class: TxClass) -> (r: usize)
        requires
            2 <= bhl <= 5,
            coeff_idx < 0x10000,
            ({
                let height = side_of(bhl as int);
                let stride = height + 4;
                let pos = (coeff_idx as int / height) * stride + coeff_idx as int % height;
                &&& pos + stride < levels.len()
                &&& tx_class == TxClass::TX_CLASS_2D ==> pos + stride + 1 < levels.len()
                &&& tx_class == TxClass::TX_CLASS_HORIZ ==> pos + 2 * stride < levels.len()
                &&& levels@[pos + 1] + levels@[pos + stride] <= 255
            }),
        ensures
            r == br_ctx(levels@, coeff_idx as int, side_of(bhl as int), tx_class),
            r <= 20,
    {
        let height: usize = crate::transform::side(bhl);
        let col: usize = coeff_idx / height;
        let row: usize = coeff_idx % height;
        let stride: usize = height + TX_PAD_HOR;
        proof {
            assert(0 <= col * stride <= 0x10000 * 36) by (nonlinear_arith)
                requires 0 <= col <= 0x10000, 0 <= stride <= 36;
        }
        let pos: usize = col * stride + row;
        let near: usize = (levels[pos + 1] + levels[pos + stride]) as usize;
        let sum: usize = match tx_class {
            TxClass::TX_CLASS_2D => near + levels[pos + stride + 1] as usize,
            TxClass::TX_CLASS_HORIZ => near + levels[pos + 2 * stride] as usize,
            TxClass::TX_CLASS_VERT => near + levels[pos + 2] as usize,
        };
        let half: usize = (sum + 1) / 2;
        let mag: usize = if half < 6 { half } else { 6 };
        if coeff_idx == 0 {
            return mag;
        }
        let edge: bool = match tx_class {
            TxClass::TX_CLASS_2D => row < 2 && col < 2,
            TxClass::TX_CLASS_HORIZ => col == 0,
            TxClass::TX_CLASS_VERT => row == 0,
        };
        if edge { mag + 7 } else { mag + 14 }
    }
}

/// The context at place `i` of a scan.
pub open spec fn scan_ctx(levels: Seq<u8>, scan: Seq<u16>, eob: int, tx_size: TxSize, class: TxClass, i: int) -> int {
    let width = side_of(imin(tx_size.wl(), 5));
    let height = side_of(imin(tx_size.hl(), 5));
    if i == eob - 1 {
        eob_ctx(i, width * height)
    } else {
        position_ctx(levels, tx_size, class, scan[i] as int)
    }
}

/// The context of the levels above the base ones.
pub open spec fn br_ctx(levels: Seq<u8>, coeff_idx: int, height: int, class: TxClass) -> int {
    let col = coeff_idx / height;
    let row = coeff_idx % height;
    let stride = height + 4;
    let pos = col * stride + row;
    let third = match class {
        TxClass::TX_CLASS_2D => levels[pos + stride + 1],
        TxClass::TX_CLASS_HORIZ => levels[pos + 2 * stride],
        TxClass::TX_CLASS_VERT => levels[pos + 2],
    };
    let mag = imin((levels[pos + 1] + levels[pos + stride] + third + 1) / 2, 6);
    let edge = match class {
        TxClass::TX_CLASS_2D => row < 2 && col < 2,
        TxClass::TX_CLASS_HORIZ => col == 0,
        TxClass::TX_CLASS_VERT => row == 0,
    };
    if coeff_idx == 0 {
        mag
    } else if edge {
        mag + 7
    } else {
        mag + 14
    }
}

proof fn lemma_nz_ctx_small(levels: Seq<u8>, stride: int, tx_size: TxSize, class: TxClass, row: int, col: int)
    requires
        0 <= row,
        0 <= col,
    ensures
        0 <= nz_ctx(levels, stride, tx_size, class, row, col) <= 40,
{
}

proof fn lemma_position(pos: int, width: int, height: int)
    requires
        0 <= pos < width * height,
        4 <= height,
    ensures
        0 <= pos / height < width,
        0 <= pos % height < height,
        pos == (pos / height) * height + pos % height,
{
    vstd::arithmetic::div_mod::lemma_fundamental_div_mod(pos, height);
    assert(0 <= pos / height < width) by (nonlinear_arith)
        requires 0 <= pos < width * height, height > 0, pos == height * (pos / height) + pos % height, 0 <= pos % height < height;
    assert(height * (pos / height) == (pos / height) * height) by (nonlinear_arith);
}

/// A cell of a whole chunk lies inside the buffer, and in no other chunk.
proof fn lemma_chunk(c: int, r: int, size: int, len: int)
    requires
        0 <= r < size,
        0 <= c < len / size,
    ensures
        0 <= c * size + r < len,
        0 <= c * size,
        (c * size + r) / size == c,
        (c * size + r) % size == r,
{
    vstd::arithmetic::div_mod::lemma_fundamental_div_mod(len, size);
    assert(0 <= c * size + r < len && 0 <= c * size) by (nonlinear_arith)
        requires 0 <= r < size, 0 <= c, c + 1 <= len / size, len == size * (len / size) + len % size, 0 <= len % size;
    vstd::arithmetic::div_mod::lemma_fundamental_div_mod_converse(c * size + r, size, c, r);
}

/// Chroma at half resolution is carried once: of four blocks of 4x4 samples that share
/// it only the last carries it, and a block of an even number of units always does.
pub proof fn law_chroma_is_carried_once(bo: TileBlockOffset, bsize: BlockSize, cs: ChromaSampling)
    requires
        cs != ChromaSampling::Cs400,
    ensures
        chroma_at(bo, BlockSize::BLOCK_4X4, 1, 1, cs) == (bo.x as int % 2 == 1 && bo.y as int % 2 == 1),
        bsize.wl() > 2 && bsize.hl() > 2 ==> chroma_at(bo, bsize, 1, 1, cs),
        chroma_at(bo, bsize, 0, 0, cs),
{
}

/// The depth that is written for an intra block names one transform size.
pub proof fn law_depth_names_one_transform(bsize: BlockSize, s: TxSize, t: TxSize)
    requires
        at_depth(bsize, s, 0) || at_depth(bsize, s, 1) || at_depth(bsize, s, 2),
        at_depth(bsize, t, 0) || at_depth(bsize, t, 1) || at_depth(bsize, t, 2),
        tx_depth(bsize, s) == tx_depth(bsize, t),
    ensures
        s == t,
{
    crate::transform::lemma_tx_size_by_log2(s, t);
}

/// The types of a set in the order of their symbols: the table by which a reader turns
/// a symbol into a transform.
pub open spec fn coded_types(set: TxSet) -> Seq<TxType> {
    match set {
        TxSet::TX_SET_DCTONLY => seq![TxType::DCT_DCT],
        TxSet::TX_SET_INTER_3 => seq![TxType::IDTX, TxType::DCT_DCT],
        TxSet::TX_SET_INTRA_2 => seq![TxType::IDTX, TxType::DCT_DCT, TxType::ADST_ADST, TxType::ADST_DCT, TxType::DCT_ADST],
        TxSet::TX_SET_INTRA_1 => seq![
            TxType::IDTX,
            TxType::DCT_DCT,
            TxType::V_DCT,
            TxType::H_DCT,
            TxType::ADST_ADST,
            TxType::ADST_DCT,
            TxType::DCT_ADST,
        ],
        TxSet::TX_SET_INTER_2 => seq![
            TxType::IDTX,
            TxType::V_DCT,
            TxType::H_DCT,
            TxType::DCT_DCT,
            TxType::ADST_DCT,
            TxType::DCT_ADST,
            TxType::FLIPADST_DCT,
            TxType::DCT_FLIPADST,
            TxType::ADST_ADST,
            TxType::FLIPADST_FLIPADST,
            TxType::ADST_FLIPADST,
            TxType::FLIPADST_ADST,
        ],
        TxSet::TX_SET_INTER_1 => seq![
            TxType::IDTX,
            TxType::V_DCT,
            TxType::H_DCT,
            TxType::V_ADST,
            TxType::H_ADST,
            TxType::V_FLIPADST,
            TxType::H_FLIPADST,
            TxType::DCT_DCT,
            TxType::ADST_DCT,
            TxType::DCT_ADST,
            TxType::FLIPADST_DCT,
            TxType::DCT_FLIPADST,
            TxType::ADST_ADST,
            TxType::FLIPADST_FLIPADST,
            TxType::ADST_FLIPADST,
            TxType::FLIPADST_ADST,
        ],
    }
}

/// A reader gets every type back from its symbol, and every symbol stands for a type of
/// the set.
pub proof fn law_symbols_read_back_as_their_types(set: TxSet, t: TxType, symbol: int)
    ensures
        tx_used(set, t) ==> 0 <= tx_symbol(set, t) < coded_types(set).len() && coded_types(set)[tx_symbol(set, t)] == t,
        0 <= symbol < coded_types(set).len() ==> tx_used(set, coded_types(set)[symbol]) && tx_symbol(set, coded_types(set)[symbol]) == symbol,
        set_len(set) == coded_types(set).len(),
{
    if 0 <= symbol < coded_types(set).len() {
        let s = coded_types(set)[symbol];
        assert(tx_used(set, s) && tx_symbol(set, s) == symbol);
    }
}

/// The set that a transform chooses from goes by its longer side, and up to 16 samples by
/// its shorter one.
pub proof fn law_sets_go_by_the_sides(t: TxSize, is_inter: bool, reduced: bool)
    ensures
        ({
            let set = tx_set_of(t, is_inter, reduced);
            let long = if t.w() > t.h() { t.w() } else { t.h() };
            let short = if t.w() > t.h() { t.h() } else { t.w() };
            &&& set == TxSet::TX_SET_DCTONLY <==> long == 64 || long == 32 && !is_inter
            &&& set == TxSet::TX_SET_INTER_3 <==> is_inter && (long == 32 || long <= 16 && reduced)
            &&& set == TxSet::TX_SET_INTER_2 <==> is_inter && !reduced && long == 16 && short == 16
            &&& set == TxSet::TX_SET_INTER_1 <==> is_inter && !reduced && long <= 16 && short <= 8
            &&& set == TxSet::TX_SET_INTRA_2 <==> !is_inter && long <= 16 && (reduced || short == 16)
            &&& set == TxSet::TX_SET_INTRA_1 <==> !is_inter && long <= 16 && !reduced && short <= 8
        }),
{
}

/// A transform type is written under the model of its set, by the shorter side of the
/// transform and, within a frame, by the luma mode; a reader gets it back. Where only one
/// type is possible nothing is written.
pub proof fn law_written_types_read_back(t: TxSize, tx_type: TxType, y_mode: PredictionMode, is_inter: bool, reduced: bool)
    requires
        tx_used(tx_set_of(t, is_inter, reduced), tx_type),
    ensures
        ({
            let set = tx_set_of(t, is_inter, reduced);
            let s = tx_type_symbols(t, tx_type, y_mode, is_inter, reduced);
            &&& set == TxSet::TX_SET_DCTONLY <==> s.len() == 0
            &&& s.len() <= 1
            &&& s.len() == 1 ==> coded_types(set)[s[0].value as int] == tx_type
            &&& s.len() == 1 ==> match s[0].cdf {
                Cdf::InterTx1(sq) => set == TxSet::TX_SET_INTER_1 && short_side(t, sq),
                Cdf::InterTx2(sq) => set == TxSet::TX_SET_INTER_2 && short_side(t, sq),
                Cdf::InterTx3(sq) => set == TxSet::TX_SET_INTER_3 && short_side(t, sq),
                Cdf::IntraTx1(sq, mode) => set == TxSet::TX_SET_INTRA_1 && short_side(t, sq) && mode == y_mode.idx(),
                Cdf::IntraTx2(sq, mode) => set == TxSet::TX_SET_INTRA_2 && short_side(t, sq) && mode == y_mode.idx(),
                _ => false,
            }
        }),
{
    crate::predict::law_modes_are_numbered(y_mode);
}

/// The shorter side has `4 * 2^n` samples.
pub open spec fn short_side(t: TxSize, n: usize) -> bool {
    let short = if t.w() > t.h() { t.h() } else { t.w() };
    n == 0 && short == 4 || n == 1 && short == 8 || n == 2 && short == 16 || n == 3 && short == 32 || n == 4 && short == 64
}

/// A transform that leaves one direction alone orders its coefficients along the other.
pub proof fn law_one_sided_transforms_have_a_direction(t: TxType)
    ensures
        class_of(t) == TxClass::TX_CLASS_VERT <==> t == TxType::V_DCT || t == TxType::V_ADST || t == TxType::V_FLIPADST,
        class_of(t) == TxClass::TX_CLASS_HORIZ <==> t == TxType::H_DCT || t == TxType::H_ADST || t == TxType::H_FLIPADST,
{
}

/// The mode that predicts along the other axis.
pub open spec fn mirrored_mode(m: PredictionMode) -> PredictionMode {
    match m {
        PredictionMode::V_PRED => PredictionMode::H_PRED,
        PredictionMode::H_PRED => PredictionMode::V_PRED,
        PredictionMode::D113_PRED => PredictionMode::D157_PRED,
        PredictionMode::D157_PRED => PredictionMode::D113_PRED,
        PredictionMode::D67_PRED => PredictionMode::D203_PRED,
        PredictionMode::D203_PRED => PredictionMode::D67_PRED,
        PredictionMode::SMOOTH_V_PRED => PredictionMode::SMOOTH_H_PRED,
        PredictionMode::SMOOTH_H_PRED => PredictionMode::SMOOTH_V_PRED,
        _ => m,
    }
}

/// The transform with its two directions exchanged.
pub open spec fn mirrored_type(t: TxType) -> TxType {
    match t {
        TxType::ADST_DCT => TxType::DCT_ADST,
        TxType::DCT_ADST => TxType::ADST_DCT,
        _ => t,
    }
}

/// A prediction from above leaves a sine transform down the columns, one from the left
/// along the rows, and one from the corner in both; the axes are treated alike.
pub proof fn law_modes_suit_their_transforms(m: PredictionMode)
    requires
        !m.inter(),
    ensures
        tx_type_for_mode(mirrored_mode(m)) == mirrored_type(tx_type_for_mode(m)),
        tx_type_for_mode(m) == TxType::ADST_DCT <==> m == PredictionMode::V_PRED || m == PredictionMode::D113_PRED || m
            == PredictionMode::D67_PRED || m == PredictionMode::SMOOTH_V_PRED,
        tx_type_for_mode(m) == TxType::ADST_ADST <==> m == PredictionMode::D135_PRED || m == PredictionMode::SMOOTH_PRED || m
            == PredictionMode::PAETH_PRED,
        tx_type_for_mode(m) == TxType::DCT_DCT <==> m == PredictionMode::DC_PRED || m == PredictionMode::D45_PRED || m
            == PredictionMode::UV_CFL_PRED,
{
}

/// The depth counts splits of the block's largest transform, which is the block itself up
/// to 64 samples a side: none, one, or two.
pub proof fn law_depth_counts_splits(bsize: BlockSize, largest: TxSize, t: TxSize)
    requires
        largest.w() == if bsize.w() > 64 { 64 } else { bsize.w() },
        largest.h() == if bsize.h() > 64 { 64 } else { bsize.h() },
    ensures
        at_depth(bsize, t, 0) <==> t == largest,
        at_depth(bsize, t, 1) <==> t == largest.sub(),
        at_depth(bsize, t, 2) <==> t == largest.sub().sub(),
        tx_depth(bsize, largest) == 0,
        largest != TxSize::TX_4X4 ==> tx_depth(bsize, largest.sub()) == 1,
        largest.sub() != TxSize::TX_4X4 ==> tx_depth(bsize, largest.sub().sub()) == 2,
{
    reveal_with_fuel(after_splits, 3);
    crate::transform::law_split_halves_the_longer_side(largest);
    crate::transform::law_split_halves_the_longer_side(largest.sub());
    if t.wl() == largest.wl() && t.hl() == largest.hl() {
        crate::transform::lemma_tx_size_by_log2(t, largest);
    }
    if t.wl() == largest.sub().wl() && t.hl() == largest.sub().hl() {
        crate::transform::lemma_tx_size_by_log2(t, largest.sub());
    }
    if t.wl() == largest.sub().sub().wl() && t.hl() == largest.sub().sub().hl() {
        crate::transform::lemma_tx_size_by_log2(t, largest.sub().sub());
    }
}

/// The depth of a block is coded under a model of its own for each length of its longer
/// side, with one context more for each neighbour that reaches as far as its largest
/// transform.
pub proof fn law_depth_symbols(bc: &BlockContext, bo: TileBlockOffset, bsize: BlockSize, t: TxSize)
    requires
        bsize != BlockSize::BLOCK_4X4,
    ensures
        ({
            let s = tx_size_intra_symbol(bc, bo, bsize, t);
            let long = if bsize.w() > bsize.h() { bsize.w() } else { bsize.h() };
            let wide = if bsize.w() > 64 { 64 } else { bsize.w() };
            let high = if bsize.h() > 64 { 64 } else { bsize.h() };
            let above = bc.blocks.block(bo.x as int, bo.y - 1);
            let left = bc.blocks.block(bo.x - 1, bo.y as int);
            let reach_above = if above.mode.inter() { 4 * above.n4_w } else { bc.above_tx_context@[bo.x as int] as int };
            let reach_left = if left.mode.inter() { 4 * left.n4_h } else { bc.left_tx_context@[bo.y as int % 16] as int };
            let ctx = match s.cdf {
                Cdf::TxSize8x8(ctx) => ctx,
                Cdf::TxSize(_, ctx) => ctx,
                _ => 9,
            };
            &&& s.cdf is TxSize8x8 <==> long == 8
            &&& s.cdf matches Cdf::TxSize(cat, _) ==> (cat == 0 <==> long == 16) && (cat == 1 <==> long == 32) && (cat == 2 <==> long >= 64)
            &&& ctx == 2 <==> bo.y > 0 && reach_above >= wide && bo.x > 0 && reach_left >= high
            &&& ctx == 0 <==> !(bo.y > 0 && reach_above >= wide) && !(bo.x > 0 && reach_left >= high)
            &&& ctx <= 2
            &&& s.value == 0 <==> t.w() == wide && t.h() == high
        }),
{
    lemma_not_4x4(bsize);
}

proof fn lemma_not_4x4(bsize: BlockSize)
    requires
        bsize != BlockSize::BLOCK_4X4,
    ensures
        bsize.wl() > 2 || bsize.hl() > 2,
{
}

/// The context of a split: three for each step of its category, and within a category one
/// more for each neighbour that is smaller than the transform. A category belongs to the
/// longer side of the block's largest transform, the odd one to smaller transforms.
pub proof fn law_split_contexts(bc: &BlockContext, t: TxTrace, bo: TileBlockOffset, bsize: BlockSize, tx_size: TxSize, tbx: int, tby: int)
    requires
        tx_size.wl() <= bsize.wl(),
        tx_size.hl() <= bsize.hl(),
    ensures
        ({
            let ctx = split_context(bc, t, bo, bsize, tx_size, tbx, tby);
            let long = if bsize.w() > bsize.h() { bsize.w() } else { bsize.h() };
            let tx_long = if tx_size.w() > tx_size.h() { tx_size.w() } else { tx_size.h() };
            let above = bc.blocks.block(bo.x as int, bo.y - 1);
            let left = bc.blocks.block(bo.x - 1, bo.y as int);
            let width_above = if tby != 0 {
                t.above[bo.x as int] as int
            } else if bo.y == 0 {
                64
            } else if above.skip && above.mode.inter() {
                above.bsize.w()
            } else {
                t.above[bo.x as int] as int
            };
            let height_left = if tbx != 0 {
                t.left[bo.y as int % 16] as int
            } else if bo.x == 0 {
                64
            } else if left.skip && left.mode.inter() {
                left.bsize.h()
            } else {
                t.left[bo.y as int % 16] as int
            };
            let smaller = (if width_above < tx_size.w() { 1int } else { 0 }) + (if height_left < tx_size.h() { 1int } else { 0 });
            &&& ctx % 3 == smaller
            &&& (ctx / 3) % 2 == 0 <==> tx_long == if long > 64 { 64 } else { long }
            &&& ctx / 6 == 0 <==> long >= 64
            &&& ctx / 6 == 1 <==> long == 32
            &&& ctx / 6 == 2 <==> long == 16
            &&& ctx / 6 == 3 <==> long == 8
        }),
{
}

/// What one leaf of a transform tree leaves behind.
proof fn lemma_one_leaf(bc: &BlockContext, p: TxTrace, bo: TileBlockOffset, bsize: BlockSize, sub: TxSize, bx: int, by: int, depth: int)
    requires
        bo.x < bc.blocks.cols,
        bo.y < bc.blocks.rows,
    ensures
        ({
            let r = leaf_trace(bc, p, bo, bsize, sub, bx, by, depth);
            let coded = sub != TxSize::TX_4X4 && depth < 2;
            &&& r.above == filled(p.above, bo.x as int, sub.w() / 4, sub.w() as u8)
            &&& r.left == filled(p.left, y_in_sb(bo), sub.h() / 4, sub.h() as u8)
            &&& !coded ==> r.symbols == p.symbols
            &&& coded ==> r.symbols.len() == p.symbols.len() + 1 && r.symbols.drop_last() == p.symbols && r.symbols.last().value == 0
            &&& forall|i: int| 0 <= i < p.symbols.len() ==> #[trigger] r.symbols[i] == p.symbols[i]
        }),
{
    let r = leaf_trace(bc, p, bo, bsize, sub, bx, by, depth);
    if sub != TxSize::TX_4X4 && depth < 2 {
        assert(r.symbols.drop_last() =~= p.symbols);
    }
}

/// What the leaves of a transform tree leave behind: every unit along the edges of the
/// block holds the side of the leaves, the rest of the edges is as it was, and no leaf
/// says that it is split.
#[verifier::spinoff_prover]
#[verifier::rlimit(50)]
proof fn lemma_leaves(bc: &BlockContext, t: TxTrace, bo: TileBlockOffset, bsize: BlockSize, sub: TxSize, cols: int, rows: int, n: int, depth: int)
    requires
        1 <= cols <= 16,
        1 <= rows <= 16,
        0 <= n <= cols * rows,
        cols * (sub.w() / 4) == bsize.w() / 4,
        rows * (sub.h() / 4) == bsize.h() / 4,
        bo.x + bsize.w() / 4 <= bc.blocks.cols,
        bo.y + bsize.h() / 4 <= bc.blocks.rows,
        bc.blocks.cols <= usize::MAX - 32,
        y_in_sb(bo) + bsize.h() / 4 <= 16,
        t.above.len() >= bc.blocks.cols,
        t.left.len() == 16,
    ensures
        ({
            let r = leaves_trace(bc, t, bo, bsize, sub, cols, n, depth);
            let across = if n < cols { n } else { cols };
            let down = (n + cols - 1) / cols;
            let coded = sub != TxSize::TX_4X4 && depth < 2;
            &&& r.above.len() == t.above.len()
            &&& r.left.len() == 16
            &&& forall|x: int| bo.x <= x < bo.x + across * (sub.w() / 4) ==> #[trigger] r.above[x] == sub.w()
            &&& forall|x: int| 0 <= x < t.above.len() && !(bo.x <= x < bo.x + bsize.w() / 4) ==> #[trigger] r.above[x] == t.above[x]
            &&& forall|y: int| y_in_sb(bo) <= y < y_in_sb(bo) + down * (sub.h() / 4) ==> #[trigger] r.left[y] == sub.h()
            &&& forall|y: int| 0 <= y < 16 && !(y_in_sb(bo) <= y < y_in_sb(bo) + bsize.h() / 4) ==> #[trigger] r.left[y] == t.left[y]
            &&& r.symbols.len() == t.symbols.len() + if coded { n } else { 0 }
            &&& forall|i: int| 0 <= i < t.symbols.len() ==> #[trigger] r.symbols[i] == t.symbols[i]
            &&& forall|i: int| t.symbols.len() <= i < r.symbols.len() ==> (#[trigger] r.symbols[i]).value == 0
        }),
    decreases n,
{
    let sw = sub.w() / 4;
    let sh = sub.h() / 4;
    if n > 0 {
        lemma_leaves(bc, t, bo, bsize, sub, cols, rows, n - 1, depth);
        let p = leaves_trace(bc, t, bo, bsize, sub, cols, n - 1, depth);
        let r = leaves_trace(bc, t, bo, bsize, sub, cols, n, depth);
        let bx = (n - 1) % cols;
        let by = (n - 1) / cols;
        vstd::arithmetic::div_mod::lemma_fundamental_div_mod(n - 1, cols);
        assert(0 <= by < rows && 0 <= bx < cols) by (nonlinear_arith)
            requires 0 <= n - 1 < cols * rows, cols >= 1, bx == (n - 1) % cols, by == (n - 1) / cols,
        ;
        assert(0 <= bx * sw && bx * sw + sw <= cols * sw && (bx + 1) * sw == bx * sw + sw) by (nonlinear_arith)
            requires 0 <= bx, bx + 1 <= cols, sw >= 1;
        assert(0 <= by * sh && by * sh + sh <= rows * sh && (by + 1) * sh == by * sh + sh) by (nonlinear_arith)
            requires 0 <= by, by + 1 <= rows, sh >= 1;
        let tx_bo = TileBlockOffset { x: (bo.x + bx * sw) as usize, y: (bo.y + by * sh) as usize };
        assert(tx_bo.x == bo.x + bx * sw && tx_bo.y == bo.y + by * sh);
        assert(y_in_sb(tx_bo) == y_in_sb(bo) + by * sh);
        lemma_one_leaf(bc, p, tx_bo, bsize, sub, bx, by, depth);
        assert(r == leaf_trace(bc, p, tx_bo, bsize, sub, bx, by, depth));
        // The row of leaves that the last one belongs to has begun.
        assert((n + cols - 1) / cols == by + 1) by (nonlinear_arith)
            requires n - 1 == cols * by + bx, 0 <= bx < cols, by >= 0;
        assert((n - 1 + cols - 1) / cols == if bx == 0 { by } else { by + 1 }) by (nonlinear_arith)
            requires n - 1 == cols * by + bx, 0 <= bx < cols, by >= 0;
        assert(by == 0 ==> n - 1 == bx) by (nonlinear_arith)
            requires n - 1 == cols * by + bx;
        assert(by > 0 ==> n - 1 >= cols) by (nonlinear_arith)
            requires n - 1 == cols * by + bx, bx >= 0, cols >= 1;
        let y0 = y_in_sb(bo);
        let across = if n < cols { n } else { cols };
        let reached = if n - 1 < cols { n - 1 } else { cols };
        assert(by == 0 ==> reached == bx && across == bx + 1);
        assert(by > 0 ==> reached == cols && across == cols);
        assert forall|x: int| bo.x <= x < bo.x + across * sw implies #[trigger] r.above[x] == sub.w() by {
            assert(r.above[x] == if bo.x + bx * sw <= x < bo.x + bx * sw + sw { sub.w() as u8 } else { p.above[x] });
        }
        assert forall|x: int| 0 <= x < t.above.len() && !(bo.x <= x < bo.x + bsize.w() / 4) implies #[trigger] r.above[x] == t.above[x] by {
            assert(r.above[x] == p.above[x]);
        }
        let down = (n + cols - 1) / cols;
        assert forall|y: int| y0 <= y < y0 + down * sh implies #[trigger] r.left[y] == sub.h() by {
            assert(r.left[y] == if y0 + by * sh <= y < y0 + by * sh + sh { sub.h() as u8 } else { p.left[y] });
        }
        assert forall|y: int| 0 <= y < 16 && !(y0 <= y < y0 + bsize.h() / 4) implies #[trigger] r.left[y] == t.left[y] by {
            assert(r.left[y] == p.left[y]);
        }
        assert forall|i: int| 0 <= i < t.symbols.len() implies #[trigger] r.symbols[i] == t.symbols[i] by {
            assert(r.symbols[i] == p.symbols[i]);
        }
        assert forall|i: int| t.symbols.len() <= i < r.symbols.len() implies (#[trigger] r.symbols[i]).value == 0 by {
            if i < p.symbols.len() {
                assert(r.symbols[i] == p.symbols[i]);
            }
        }
    } else {
        assert((cols - 1) / cols == 0) by (nonlinear_arith)
            requires cols >= 1;
    }
}

/// What the transform tree of a block inside the tile leaves behind. Split, the first
/// symbol says so, no later one does, and the edges of the whole block hold the sides of
/// the halves; not split, one symbol says so where a split was possible, and the edges of
/// the transform hold its sides. The rest of the edges is as it was.
pub proof fn law_transform_tree_is_recorded(bc: &BlockContext, t: TxTrace, bo: TileBlockOffset, bsize: BlockSize, tx_size: TxSize, split: bool, tbx: int, tby: int, depth: int)
    requires
        bsize.wl() <= 6,
        bsize.hl() <= 6,
        tx_size.wl() <= bsize.wl(),
        tx_size.hl() <= bsize.hl(),
        bo.x + bsize.w() / 4 <= bc.blocks.cols,
        bo.y + bsize.h() / 4 <= bc.blocks.rows,
        bc.blocks.cols <= usize::MAX - 32,
        y_in_sb(bo) + bsize.h() / 4 <= 16,
        t.above.len() >= bc.blocks.cols,
        t.left.len() == 16,
        split ==> tx_size != TxSize::TX_4X4 && depth < 2,
        0 <= depth <= 2,
    ensures
        ({
            let r = inter_trace(bc, t, bo, bsize, tx_size, split, tbx, tby, depth);
            let side_w = if split { tx_size.sub().w() } else { tx_size.w() };
            let side_h = if split { tx_size.sub().h() } else { tx_size.h() };
            let w = if split { bsize.w() / 4 } else { tx_size.w() / 4 };
            let h = if split { bsize.h() / 4 } else { tx_size.h() / 4 };
            let can = tx_size != TxSize::TX_4X4 && depth < 2;
            let leaves = (bsize.w() / side_w) * (bsize.h() / side_h);
            &&& forall|x: int| bo.x <= x < bo.x + w ==> #[trigger] r.above[x] == side_w
            &&& forall|x: int| 0 <= x < t.above.len() && !(bo.x <= x < bo.x + w) ==> #[trigger] r.above[x] == t.above[x]
            &&& forall|y: int| y_in_sb(bo) <= y < y_in_sb(bo) + h ==> #[trigger] r.left[y] == side_h
            &&& forall|y: int| 0 <= y < 16 && !(y_in_sb(bo) <= y < y_in_sb(bo) + h) ==> #[trigger] r.left[y] == t.left[y]
            &&& forall|i: int| 0 <= i < t.symbols.len() ==> #[trigger] r.symbols[i] == t.symbols[i]
            &&& can ==> r.symbols.len() > t.symbols.len() && r.symbols[t.symbols.len() as int].value == if split { 1int } else { 0 }
            &&& !split ==> r.symbols.len() == t.symbols.len() + if can { 1int } else { 0 }
            &&& split ==> r.symbols.len() == t.symbols.len() + 1 + if tx_size.sub() != TxSize::TX_4X4 && depth < 1 { leaves } else { 0 }
            &&& forall|i: int| t.symbols.len() < i < r.symbols.len() ==> (#[trigger] r.symbols[i]).value == 0
        }),
{
    if split {
        let sub = tx_size.sub();
        crate::transform::law_split_halves_the_longer_side(tx_size);
        let cols = bsize.w() / sub.w();
        let rows = bsize.h() / sub.h();
        lemma_sub_counts(bsize, sub);
        let u = split_coded(bc, t, bo, bsize, tx_size, true, tbx, tby, depth);
        assert(u.symbols.len() == t.symbols.len() + 1);
        assert(cols * rows >= cols && (cols * rows + cols - 1) / cols == rows) by (nonlinear_arith)
            requires cols >= 1, rows >= 1;
        lemma_leaves(bc, u, bo, bsize, sub, cols, rows, cols * rows, depth + 1);
    }
}

/// The starts of the groups of end-of-block positions, and how many bits code the place
/// in a group.
pub open spec fn eob_groups() -> Seq<(int, int)> {
    seq![(0int, 0int), (1, 0), (2, 0), (3, 1), (5, 2), (9, 3), (17, 4), (33, 5), (65, 6), (129, 7), (257, 8), (513, 9)]
}

/// A position belongs to the last group that starts at or before it, and its offset is
/// what remains.
pub proof fn law_eob_groups_are_the_formats(eob: int)
    requires
        0 <= eob <= 1024,
    ensures
        ({
            let (t, extra) = eob_token(eob);
            &&& 0 <= t < 12
            &&& eob_groups()[t].0 + extra == eob
            &&& extra >= 0
            &&& t < 11 ==> eob < eob_groups()[t + 1].0
            &&& eob_group_start(t) == eob_groups()[t].0
            &&& eob_offset_bits(t) == eob_groups()[t].1
        }),
{
    lemma2_to64();
    law_eob_token_is_reversible(eob);
    let t = eob_token(eob).0;
    if eob >= 2 {
        let l = floor_log2((eob - 1) as nat);
        crate::util::lemma_floor_log2((eob - 1) as nat);
        crate::util::lemma_floor_log2_below((eob - 1) as nat, 10);
        lemma_pow2_unfold(l + 1);
        assert(l <= 9 || eob == 1025);
        assert(pow2(l) <= eob - 1 < pow2(l + 1));
        if l == 0 {
        } else if l == 1 {
        } else if l == 2 {
        } else if l == 3 {
        } else if l == 4 {
        } else if l == 5 {
        } else if l == 6 {
        } else if l == 7 {
        } else if l == 8 {
        } else {
            assert(l == 9);
        }
    }
}

/// The neighbourhood of a coefficient, as a table of levels by row and column: in two
/// dimensions the five nearest after it, in one direction the four after it along that
/// direction and the one beside it. Each counts for at most three.
pub proof fn law_neighbourhoods(levels: Seq<u8>, stride: int, class: TxClass, row: int, col: int)
    ensures
        ({
            let near = |dr: int, dc: int| if levels[(col + dc) * stride + row + dr] > 3 { 3 } else { levels[(col + dc) * stride + row + dr] as int };
            nz_mag(levels, col * stride + row, stride, class) == match class {
                TxClass::TX_CLASS_2D => near(0, 1) + near(0, 2) + near(1, 0) + near(1, 1) + near(2, 0),
                TxClass::TX_CLASS_HORIZ => near(0, 1) + near(0, 2) + near(0, 3) + near(0, 4) + near(1, 0),
                TxClass::TX_CLASS_VERT => near(1, 0) + near(2, 0) + near(3, 0) + near(4, 0) + near(0, 1),
            }
        }),
{
    let p = col * stride + row;
    assert((col + 1) * stride == col * stride + stride && (col + 2) * stride == col * stride + 2 * stride && (col + 3) * stride == col * stride
        + 3 * stride && (col + 4) * stride == col * stride + 4 * stride && (col + 0) * stride == col * stride) by (nonlinear_arith);
}

/// A context is the offset of its region plus half the neighbourhood, rounded up and held
/// to four. In two dimensions the first coefficient has a context of its own; an upright
/// transform sets its first two rows apart, a flat one its first two columns, and the rest
/// go by the distance from the corner. In one direction only the place along it counts.
pub proof fn law_context_regions(levels: Seq<u8>, stride: int, t: TxSize, class: TxClass, row: int, col: int)
    requires
        0 <= row,
        0 <= col,
    ensures
        ({
            let mag = nz_mag(levels, col * stride + row, stride, class);
            let ctx = nz_ctx(levels, stride, t, class, row, col);
            let half = ctx - match class {
                TxClass::TX_CLASS_HORIZ => if col == 0 { 26int } else if col == 1 { 31 } else { 36 },
                TxClass::TX_CLASS_VERT => if row == 0 { 26int } else if row == 1 { 31 } else { 36 },
                TxClass::TX_CLASS_2D => if t.h() > t.w() && row <= 1 {
                    11
                } else if t.w() > t.h() && col <= 1 {
                    16
                } else if row + col <= 1 {
                    1
                } else if row + col <= 3 {
                    6
                } else {
                    21
                },
            };
            if class == TxClass::TX_CLASS_2D && row == 0 && col == 0 {
                ctx == 0
            } else {
                &&& 0 <= half <= 4
                &&& half < 4 ==> 2 * half - 1 <= mag <= 2 * half
                &&& half == 4 ==> mag >= 7
            }
        }),
{
}

/// The last coefficient's context: its own for the first place of the scan, then by
/// eighths of the area.
pub proof fn law_last_contexts(scan_idx: int, area: int)
    requires
        0 <= scan_idx,
        0 <= area,
        area % 8 == 0,
    ensures
        eob_ctx(scan_idx, area) == 0 <==> scan_idx == 0,
        eob_ctx(scan_idx, area) == 1 <==> scan_idx > 0 && 8 * scan_idx <= area,
        eob_ctx(scan_idx, area) == 2 <==> area < 8 * scan_idx <= 2 * area,
        eob_ctx(scan_idx, area) == 3 <==> scan_idx > 0 && 8 * scan_idx > 2 * area,
{
}

/// The context of a range symbol: half of three neighbours, rounded up and held to six, in
/// one of three groups of seven, by whether the coefficient is the first, near the edge that
/// its class starts from, or further in.
pub proof fn law_range_contexts(levels: Seq<u8>, coeff_idx: int, height: int, class: TxClass, row: int, col: int)
    requires
        0 <= row < height,
        0 <= col,
        coeff_idx == col * height + row,
    ensures
        ({
            let at = |dr: int, dc: int| levels[(col + dc) * (height + 4) + row + dr] as int;
            let sum = at(1, 0) + at(0, 1) + match class {
                TxClass::TX_CLASS_2D => at(1, 1),
                TxClass::TX_CLASS_HORIZ => at(0, 2),
                TxClass::TX_CLASS_VERT => at(2, 0),
            };
            let near = match class {
                TxClass::TX_CLASS_2D => row <= 1 && col <= 1,
                TxClass::TX_CLASS_HORIZ => col == 0,
                TxClass::TX_CLASS_VERT => row == 0,
            };
            let ctx = br_ctx(levels, coeff_idx, height, class);
            let half = ctx % 7;
            &&& ctx / 7 == 0 <==> row == 0 && col == 0
            &&& ctx / 7 == 1 <==> near && !(row == 0 && col == 0)
            &&& ctx / 7 == 2 <==> !near
            &&& half < 6 ==> 2 * half - 1 <= sum <= 2 * half
            &&& half == 6 ==> sum >= 11
        }),
{
    vstd::arithmetic::div_mod::lemma_fundamental_div_mod_converse(coeff_idx, height, col, row);
    let s = height + 4;
    assert((col + 1) * s == col * s + s && (col + 2) * s == col * s + 2 * s && (col + 0) * s == col * s) by (nonlinear_arith);
    assert(coeff_idx == 0 <==> row == 0 && col == 0) by (nonlinear_arith)
        requires coeff_idx == col * height + row, 0 <= row < height, 0 <= col;
}

/// Contexts follow the scan: the last coefficient's goes by its place in the scan, any
/// other's by its place in the block, down the columns first.
pub proof fn law_contexts_follow_the_scan(levels: Seq<u8>, scan: Seq<u16>, eob: int, t: TxSize, class: TxClass, i: int, row: int, col: int)
    requires
        0 <= i < eob <= scan.len(),
        0 <= row < (if t.h() > 32 { 32 } else { t.h() }),
        0 <= col,
        scan[i] == col * (if t.h() > 32 { 32 } else { t.h() }) + row,
    ensures
        ({
            let w = if t.w() > 32 { 32 } else { t.w() };
            let h = if t.h() > 32 { 32 } else { t.h() };
            scan_ctx(levels, scan, eob, t, class, i) == if i == eob - 1 { eob_ctx(i, w * h) } else { nz_ctx(levels, h + 4, t, class, row, col) }
        }),
{
    let h = if t.h() > 32 { 32 } else { t.h() };
    vstd::arithmetic::div_mod::lemma_fundamental_div_mod_converse(scan[i] as int, h, col, row);
}

/// A block carries chroma unless its luma is the first part of what shares a chroma unit:
/// in a direction that is subsampled, a block of a single unit carries it only in an odd
/// place. Without chroma planes no block does.
pub proof fn law_first_parts_carry_no_chroma(bo: TileBlockOffset, bsize: BlockSize, xdec: int, ydec: int, cs: ChromaSampling)
    requires
        0 <= xdec <= 1,
        0 <= ydec <= 1,
    ensures
        chroma_at(bo, bsize, xdec, ydec, cs) <==> {
            &&& cs != ChromaSampling::Cs400
            &&& xdec == 1 && bsize.w() == 4 ==> bo.x % 2 == 1
            &&& ydec == 1 && bsize.h() == 4 ==> bo.y % 2 == 1
        },
{
}

} // verus!
