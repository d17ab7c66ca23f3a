//! The syntax of a coded block: which elements are written, in which order and
//! with which contexts, and which contexts are recorded for later blocks.

use vstd::prelude::*;

use crate::context::transform_unit::{chroma_at, has_chroma};
use crate::encoder::motion::TileGrid;
use crate::mc::MotionVector;
use crate::partition::{BlockSize, ChromaSampling, RefType, TileBlockOffset};
use crate::predict::PredictionMode;
use crate::transform::{TxSize, TxType};

verus! {

/// Candidates with at least this weight come from adjacent blocks.
pub const REF_CAT_LEVEL: u32 = 640;

/// A motion vector that neighbouring blocks suggest; two for prediction from two
/// references.
#[derive(Clone, Copy, Debug, PartialEq, Eq, Structural)]
pub struct CandidateMV {
    pub this_mv: MotionVector,
    pub comp_mv: MotionVector,
    pub weight: u32,
}

/// How precisely motion vectors are coded.
#[derive(Clone, Copy, Debug, PartialEq, Eq, Structural)]
pub enum MvPrecision {
    /// Whole samples.
    Whole,
    /// Quarters of a sample.
    Low,
    /// Eighths of a sample.
    High,
}

/// What a frame and its tile say about the syntax of its blocks.
#[derive(Clone, Copy, Debug, PartialEq, Eq, Structural)]
pub struct BlockSettings {
    pub has_inter: bool,
    pub chroma_sampling: ChromaSampling,
    pub xdec: usize,
    pub ydec: usize,
    pub use_128x128_superblock: bool,
    /// Deltas have not been coded yet in this superblock.
    pub code_deltas: bool,
    pub block_deltas_enabled: bool,
    pub block_delta_multi: bool,
    pub force_integer_mv: u32,
    pub allow_high_precision_mv: bool,
    pub allow_screen_content_tools: u32,
    pub enable_filter_intra: bool,
    pub enable_intra_edge_filter: bool,
    pub tx_mode_select: bool,
    pub enable_inter_txfm_split: bool,
}

/// A block that is coded.
#[derive(Clone, Copy, Debug)]
pub struct CodedBlock {
    pub luma_mode: PredictionMode,
    pub chroma_mode: PredictionMode,
    pub angle_delta_y: i8,
    pub angle_delta_uv: i8,
    pub mvs: [MotionVector; 2],
    pub bsize: BlockSize,
    pub bo: TileBlockOffset,
    pub skip: bool,
    pub tx_size: TxSize,
    pub tx_type: TxType,
    /// The block is only costed: nothing outside the trial reads its contexts.
    pub counts_only: bool,
    /// Statistics are kept.
    pub keep_stats: bool,
}

/// A step of coding a block.
#[derive(Clone, Copy, Debug, PartialEq, Eq, Structural)]
pub enum BlockStep {
    ResetSkipContext,
    SetSkip { skip: bool },
    SetBlockSize,
    SetMode,
    SetTxSize,
    SetMotionVectors,
    SetRefFrames,
    WriteSegmentation { skip: bool },
    WriteSkip { skip: bool },
    WriteBlockDeblockDeltas { multi: bool, planes: usize },
    ClearCodeDeltas,
    WriteIsInter { is_inter: bool },
    FillNeighboursRefCounts,
    WriteRefFrames,
    WriteCompoundMode { mode: PredictionMode },
    WriteInterMode { mode: PredictionMode },
    WriteDrlMode { drl_mode: bool, ctx: usize },
    WriteMv { mv: MotionVector, ref_mv: MotionVector, precision: MvPrecision },
    WriteIntraMode { mode: PredictionMode },
    WriteIntraModeKf { mode: PredictionMode },
    WriteAngleDelta { delta: i8, mode: PredictionMode },
    WriteIntraUvMode,
    WriteCflAlphas,
    WriteUsePaletteMode,
    WriteUseFilterIntra,
    WriteTxSizeIntra,
    WriteTxSizeInter { max_tx_size: TxSize, split: bool },
    UpdateTxSizeContext { skip: bool },
    /// Add the block to the statistics, with the samples of one transform.
    CountStats { pixels: usize },
    /// Record the modes and references of the block for the edge filters of later
    /// blocks.
    RecordBlockInfo,
    MotionCompensate,
    WriteTxTree,
    WriteTxBlocks,
}

impl BlockStep {
    /// The step writes symbols, or counts references for the next that does.
    pub open spec fn writes(self) -> bool {
        match self {
            BlockStep::ResetSkipContext
            | BlockStep::SetSkip { .. }
            | BlockStep::SetBlockSize
            | BlockStep::SetMode
            | BlockStep::SetTxSize
            | BlockStep::SetMotionVectors
            | BlockStep::UpdateTxSizeContext { .. }
            | BlockStep::RecordBlockInfo => false,
            _ => true,
        }
    }
}

/// Steps in the order they are taken.
pub type Steps = Seq<BlockStep>;

/// One step if the condition holds.
pub open spec fn when(c: bool, s: BlockStep) -> Steps {
    if c { seq![s] } else { seq![] }
}

/// The block is a block of the size or covers it.
pub open spec fn at_least_8x8(bsize: BlockSize) -> bool {
    BlockSize::BLOCK_8X8.within(bsize)
}

/// What the segmentation of a tile says about the syntax of its blocks.
#[derive(Clone, Copy, Debug, PartialEq, Eq, Structural)]
pub struct SegmentationSyntax {
    pub enabled: bool,
    pub update_map: bool,
    pub preskip: bool,
}

/// The steps before the filter index: the segment comes before or after the skip
/// flag.
pub open spec fn pre_cdef_steps(seg: SegmentationSyntax, skip: bool, counts_only: bool) -> Steps {
    when(!counts_only, BlockStep::SetSkip { skip })
        + when(seg.enabled && seg.update_map && seg.preskip, BlockStep::WriteSegmentation { skip: false })
        + seq![BlockStep::WriteSkip { skip }]
        + when(seg.enabled && seg.update_map && !seg.preskip, BlockStep::WriteSegmentation { skip })
}

/// The steps before the filter index, and whether the superblock codes one from
/// here on: once a block that is not skipped has been met.
pub fn encode_block_pre_cdef(seg: SegmentationSyntax, enable_cdef: bool, cdef_coded: bool, skip: bool, counts_only: bool) -> (r: (Vec<BlockStep>, bool))
    ensures
        r.0@ == pre_cdef_steps(seg, skip, counts_only),
        r.1 == (cdef_coded || !skip && enable_cdef),
{
    let mut out: Vec<BlockStep> = Vec::new();
    if !counts_only {
        out.push(BlockStep::SetSkip { skip });
    }
    if seg.enabled && seg.update_map && seg.preskip {
        out.push(BlockStep::WriteSegmentation { skip: false });
    }
    out.push(BlockStep::WriteSkip { skip });
    if seg.enabled && seg.update_map && !seg.preskip {
        out.push(BlockStep::WriteSegmentation { skip });
    }
    assert(out@ =~= pre_cdef_steps(seg, skip, counts_only));
    (out, cdef_coded || (!skip && enable_cdef))
}

/// The contexts that a block records before its syntax. A trial records only its
/// references, which its own syntax reads.
pub open spec fn context_steps(b: CodedBlock) -> Steps {
    when(b.skip && !b.counts_only, BlockStep::ResetSkipContext) + when(!b.counts_only, BlockStep::SetBlockSize) + when(
        !b.counts_only,
        BlockStep::SetMode,
    ) + when(!b.counts_only, BlockStep::SetTxSize) + when(!b.counts_only, BlockStep::SetMotionVectors) + seq![BlockStep::SetRefFrames]
}

/// The filter deltas of a superblock, with its first block, unless that is the
/// whole superblock and skipped.
pub open spec fn delta_steps(f: BlockSettings, b: CodedBlock) -> Steps {
    let sb = if f.use_128x128_superblock { BlockSize::BLOCK_128X128 } else { BlockSize::BLOCK_64X64 };
    when(
        f.code_deltas && f.block_deltas_enabled && (sb.exceeds(b.bsize) || !b.skip),
        BlockStep::WriteBlockDeblockDeltas { multi: f.block_delta_multi, planes: if f.chroma_sampling == ChromaSampling::Cs400 { 1 } else { 3 } },
    ) + seq![BlockStep::ClearCodeDeltas]
}

/// The context of a candidate's index: how many of it and the next come from
/// blocks that are not adjacent.
pub open spec fn drl_ctx(stack: Seq<CandidateMV>, idx: int) -> usize {
    ((if stack[idx].weight < 640 { 1int } else { 0 }) + (if stack[idx + 1].weight < 640 { 1int } else { 0 })) as usize
}

/// A new motion vector is coded against the first candidate: where there is a
/// choice, the index says so.
pub open spec fn new_drl_steps(mode: PredictionMode, stack: Seq<CandidateMV>) -> Steps {
    when(
        (mode == PredictionMode::NEWMV || mode == PredictionMode::NEW_NEWMV) && stack.len() > 1,
        BlockStep::WriteDrlMode { drl_mode: false, ctx: drl_ctx(stack, 0) },
    )
}

/// The index of a candidate after the first, in unary as far as candidates
/// remain.
pub open spec fn near_drl_steps(mode: PredictionMode, stack: Seq<CandidateMV>) -> Steps {
    let k = mode.candidate();
    when(mode.nearmv() && stack.len() > 2, BlockStep::WriteDrlMode { drl_mode: k > 1, ctx: drl_ctx(stack, 1) }) + when(
        mode.nearmv() && stack.len() > 3 && k > 1,
        BlockStep::WriteDrlMode { drl_mode: k > 2, ctx: drl_ctx(stack, 2) },
    )
}

/// The precision of a frame's motion vectors.
pub open spec fn mv_precision(f: BlockSettings) -> MvPrecision {
    if f.force_integer_mv != 0 {
        MvPrecision::Whole
    } else if f.allow_high_precision_mv {
        MvPrecision::High
    } else {
        MvPrecision::Low
    }
}

/// The motion vectors that new ones are coded against.
pub open spec fn ref_mv(stack: Seq<CandidateMV>, second: bool) -> MotionVector {
    if stack.len() == 0 {
        MotionVector { row: 0, col: 0 }
    } else if second {
        stack[0].comp_mv
    } else {
        stack[0].this_mv
    }
}

/// The motion vectors that the mode calls new.
pub open spec fn mv_steps(f: BlockSettings, b: CodedBlock, stack: Seq<CandidateMV>) -> Steps {
    let m = b.luma_mode;
    when(
        m == PredictionMode::NEWMV || m == PredictionMode::NEW_NEWMV || m == PredictionMode::NEW_NEARESTMV,
        BlockStep::WriteMv { mv: b.mvs@[0], ref_mv: ref_mv(stack, false), precision: mv_precision(f) },
    ) + when(
        m == PredictionMode::NEW_NEWMV || m == PredictionMode::NEAREST_NEWMV,
        BlockStep::WriteMv { mv: b.mvs@[1], ref_mv: ref_mv(stack, true), precision: mv_precision(f) },
    )
}

/// The mode of an inter block: references, mode, candidates and motion vectors.
pub open spec fn inter_steps(f: BlockSettings, b: CodedBlock, stack: Seq<CandidateMV>) -> Steps {
    seq![BlockStep::FillNeighboursRefCounts, BlockStep::WriteRefFrames] + (if b.luma_mode.compound() {
        seq![BlockStep::WriteCompoundMode { mode: b.luma_mode }]
    } else {
        seq![BlockStep::WriteInterMode { mode: b.luma_mode }]
    }) + new_drl_steps(b.luma_mode, stack) + mv_steps(f, b, stack) + near_drl_steps(b.luma_mode, stack)
}

/// The mode of a block.
pub open spec fn mode_steps(f: BlockSettings, b: CodedBlock, stack: Seq<CandidateMV>) -> Steps {
    if f.has_inter {
        seq![BlockStep::WriteIsInter { is_inter: b.luma_mode.inter() }] + (if b.luma_mode.inter() {
            inter_steps(f, b, stack)
        } else {
            seq![BlockStep::WriteIntraMode { mode: b.luma_mode }]
        })
    } else {
        seq![BlockStep::WriteIntraModeKf { mode: b.luma_mode }]
    }
}

/// The rest of an intra block's mode: directions, chroma, and the tools that are
/// not used.
pub open spec fn intra_steps(f: BlockSettings, b: CodedBlock) -> Steps {
    let chroma = chroma_at(b.bo, b.bsize, f.xdec as int, f.ydec as int, f.chroma_sampling);
    when(b.luma_mode.directional() && at_least_8x8(b.bsize), BlockStep::WriteAngleDelta { delta: b.angle_delta_y, mode: b.luma_mode })
        + when(chroma, BlockStep::WriteIntraUvMode)
        + when(chroma && b.chroma_mode == PredictionMode::UV_CFL_PRED, BlockStep::WriteCflAlphas)
        + when(
        chroma && b.chroma_mode.directional() && at_least_8x8(b.bsize),
        BlockStep::WriteAngleDelta { delta: b.angle_delta_uv, mode: b.chroma_mode },
    ) + when(
        f.allow_screen_content_tools > 0 && at_least_8x8(b.bsize) && b.bsize.w() <= 64 && b.bsize.h() <= 64,
        BlockStep::WriteUsePaletteMode,
    ) + when(
        f.enable_filter_intra && b.luma_mode == PredictionMode::DC_PRED && b.bsize.w() <= 32 && b.bsize.h() <= 32,
        BlockStep::WriteUseFilterIntra,
    )
}

/// The transform size, where it is chosen block by block.
pub open spec fn tx_size_steps(f: BlockSettings, b: CodedBlock) -> Steps {
    let inter = b.luma_mode.inter();
    let coded = b.bsize != BlockSize::BLOCK_4X4 && (!inter || !b.skip);
    if !f.tx_mode_select {
        seq![]
    } else if coded && !inter {
        seq![BlockStep::WriteTxSizeIntra] + when(!b.counts_only, BlockStep::UpdateTxSizeContext { skip: false })
    } else if coded {
        seq![BlockStep::WriteTxSizeInter {
            max_tx_size: largest_tx(b.bsize),
            split: f.enable_inter_txfm_split && (b.tx_size.wl() <= b.bsize.wl() && b.tx_size.hl() <= b.bsize.hl() && (b.tx_size.wl() < b.bsize.wl() || b.tx_size.hl()
                < b.bsize.hl())),
        }]
    } else {
        when(!b.counts_only, BlockStep::UpdateTxSizeContext { skip: inter && b.skip })
    }
}

/// The largest transform of a block.
pub open spec fn largest_tx(bsize: BlockSize) -> TxSize {
    match bsize {
        BlockSize::BLOCK_4X4 => TxSize::TX_4X4,
        BlockSize::BLOCK_4X8 => TxSize::TX_4X8,
        BlockSize::BLOCK_8X4 => TxSize::TX_8X4,
        BlockSize::BLOCK_8X8 => TxSize::TX_8X8,
        BlockSize::BLOCK_8X16 => TxSize::TX_8X16,
        BlockSize::BLOCK_16X8 => TxSize::TX_16X8,
        BlockSize::BLOCK_16X16 => TxSize::TX_16X16,
        BlockSize::BLOCK_16X32 => TxSize::TX_16X32,
        BlockSize::BLOCK_32X16 => TxSize::TX_32X16,
        BlockSize::BLOCK_32X32 => TxSize::TX_32X32,
        BlockSize::BLOCK_32X64 => TxSize::TX_32X64,
        BlockSize::BLOCK_64X32 => TxSize::TX_64X32,
        BlockSize::BLOCK_4X16 => TxSize::TX_4X16,
        BlockSize::BLOCK_16X4 => TxSize::TX_16X4,
        BlockSize::BLOCK_8X32 => TxSize::TX_8X32,
        BlockSize::BLOCK_32X8 => TxSize::TX_32X8,
        BlockSize::BLOCK_16X64 => TxSize::TX_16X64,
        BlockSize::BLOCK_64X16 => TxSize::TX_64X16,
        _ => TxSize::TX_64X64,
    }
}

/// What follows the syntax: statistics, the record for later blocks, prediction
/// and residual.
pub open spec fn residual_steps(f: BlockSettings, b: CodedBlock) -> Steps {
    when(b.keep_stats, BlockStep::CountStats { pixels: (b.tx_size.w() * b.tx_size.h()) as usize }) + when(
        f.enable_intra_edge_filter && !b.counts_only,
        BlockStep::RecordBlockInfo,
    ) + (if b.luma_mode.inter() { seq![BlockStep::MotionCompensate, BlockStep::WriteTxTree] } else { seq![BlockStep::WriteTxBlocks] })
}

/// All steps of a block after the filter index.
#[verifier::opaque]
pub open spec fn post_cdef_steps(f: BlockSettings, b: CodedBlock, stack: Seq<CandidateMV>) -> Steps {
    context_steps(b) + delta_steps(f, b) + mode_steps(f, b, stack) + (if b.luma_mode.inter() { seq![] } else { intra_steps(f, b) })
        + tx_size_steps(f, b) + residual_steps(f, b)
}

/// The motion vectors are those that the mode names, and chroma follows luma in an
/// inter block.
pub open spec fn modes_agree(b: CodedBlock, stack: Seq<CandidateMV>) -> bool {
    let m = b.luma_mode;
    let zero = MotionVector { row: 0, col: 0 };
    m.inter() ==> {
        &&& b.chroma_mode == m
        &&& m == PredictionMode::NEW_NEWMV ==> stack.len() >= 2
        &&& m.nearmv() ==> {
            &&& m != PredictionMode::NEAR0MV ==> stack.len() > m.candidate()
            &&& b.mvs@[0] == if stack.len() > 1 { stack[m.candidate()].this_mv } else { zero }
        }
        &&& m == PredictionMode::NEARESTMV ==> b.mvs@[0] == if stack.len() > 0 { stack[0].this_mv } else { zero }
    }
}

/// Chroma that is predicted from luma needs a block of at most 32x32.
pub open spec fn cfl_fits(f: BlockSettings, b: CodedBlock) -> bool {
    !b.luma_mode.inter() && chroma_at(b.bo, b.bsize, f.xdec as int, f.ydec as int, f.chroma_sampling) && b.chroma_mode
        == PredictionMode::UV_CFL_PRED ==> b.bsize.w() <= 32 && b.bsize.h() <= 32
}

fn push_when(out: &mut Vec<BlockStep>, c: bool, s: BlockStep)
    ensures
        final(out)@ == old(out)@ + when(c, s),
{
    let ghost before = out@;
    if c {
        out.push(s);
    }
    assert(out@ =~= before + when(c, s));
}

fn drl_context(stack: &[CandidateMV], idx: usize) -> (r: usize)
    requires
        idx + 1 < stack.len(),
    ensures
        r == drl_ctx(stack@, idx as int),
{
    let a: usize = if stack[idx].weight < REF_CAT_LEVEL { 1 } else { 0 };
    let b: usize = if stack[idx + 1].weight < REF_CAT_LEVEL { 1 } else { 0 };
    a + b
}

fn push_contexts(out: &mut Vec<BlockStep>, b: &CodedBlock)
    ensures
        final(out)@ == old(out)@ + context_steps(*b),
{
    let ghost before = out@;
    push_when(out, b.skip && !b.counts_only, BlockStep::ResetSkipContext);
    push_when(out, !b.counts_only, BlockStep::SetBlockSize);
    push_when(out, !b.counts_only, BlockStep::SetMode);
    push_when(out, !b.counts_only, BlockStep::SetTxSize);
    push_when(out, !b.counts_only, BlockStep::SetMotionVectors);
    out.push(BlockStep::SetRefFrames);
    assert(out@ =~= before + context_steps(*b));
}

fn push_deltas(out: &mut Vec<BlockStep>, f: &BlockSettings, b: &CodedBlock)
    ensures
        final(out)@ == old(out)@ + delta_steps(*f, *b),
{
    let ghost before = out@;
    let sb: BlockSize = if f.use_128x128_superblock { BlockSize::BLOCK_128X128 } else { BlockSize::BLOCK_64X64 };
    let planes: usize = if f.chroma_sampling == ChromaSampling::Cs400 { 1 } else { 3 };
    push_when(
        out,
        f.code_deltas && f.block_deltas_enabled && (sb.gt(b.bsize) || !b.skip),
        BlockStep::WriteBlockDeblockDeltas { multi: f.block_delta_multi, planes },
    );
    out.push(BlockStep::ClearCodeDeltas);
    assert(out@ =~= before + delta_steps(*f, *b));
}

fn push_new_drl(out: &mut Vec<BlockStep>, m: PredictionMode, stack: &[CandidateMV])
    ensures
        final(out)@ == old(out)@ + new_drl_steps(m, stack@),
{
    let ghost before = out@;
    if (m == PredictionMode::NEWMV || m == PredictionMode::NEW_NEWMV) && stack.len() > 1 {
        out.push(BlockStep::WriteDrlMode { drl_mode: false, ctx: drl_context(stack, 0) });
    }
    assert(out@ =~= before + new_drl_steps(m, stack@));
}

fn push_near_drl(out: &mut Vec<BlockStep>, m: PredictionMode, stack: &[CandidateMV])
    ensures
        final(out)@ == old(out)@ + near_drl_steps(m, stack@),
{
    let ghost before = out@;
    let n: usize = stack.len();
    if m.has_nearmv() {
        let k: usize = m.ref_mv_idx();
        if n > 2 {
            out.push(BlockStep::WriteDrlMode { drl_mode: k > 1, ctx: drl_context(stack, 1) });
            if k > 1 && n > 3 {
                out.push(BlockStep::WriteDrlMode { drl_mode: k > 2, ctx: drl_context(stack, 2) });
            }
        }
    }
    assert(out@ =~= before + near_drl_steps(m, stack@));
}

fn push_mvs(out: &mut Vec<BlockStep>, f: &BlockSettings, b: &CodedBlock, stack: &[CandidateMV])
    ensures
        final(out)@ == old(out)@ + mv_steps(*f, *b, stack@),
{
    let ghost before = out@;
    let m: PredictionMode = b.luma_mode;
    let zero: MotionVector = MotionVector { row: 0, col: 0 };
    let ref0: MotionVector = if stack.len() > 0 { stack[0].this_mv } else { zero };
    let ref1: MotionVector = if stack.len() > 0 { stack[0].comp_mv } else { zero };
    let precision: MvPrecision = if f.force_integer_mv != 0 {
        MvPrecision::Whole
    } else if f.allow_high_precision_mv {
        MvPrecision::High
    } else {
        MvPrecision::Low
    };
    push_when(
        out,
        m == PredictionMode::NEWMV || m == PredictionMode::NEW_NEWMV || m == PredictionMode::NEW_NEARESTMV,
        BlockStep::WriteMv { mv: b.mvs[0], ref_mv: ref0, precision },
    );
    push_when(
        out,
        m == PredictionMode::NEW_NEWMV || m == PredictionMode::NEAREST_NEWMV,
        BlockStep::WriteMv { mv: b.mvs[1], ref_mv: ref1, precision },
    );
    assert(out@ =~= before + mv_steps(*f, *b, stack@));
}

fn push_inter(out: &mut Vec<BlockStep>, f: &BlockSettings, b: &CodedBlock, stack: &[CandidateMV])
    ensures
        final(out)@ == old(out)@ + inter_steps(*f, *b, stack@),
{
    let ghost before = out@;
    let m: PredictionMode = b.luma_mode;
    out.push(BlockStep::FillNeighboursRefCounts);
    out.push(BlockStep::WriteRefFrames);
    if m.is_compound() {
        out.push(BlockStep::WriteCompoundMode { mode: m });
    } else {
        out.push(BlockStep::WriteInterMode { mode: m });
    }
    let ghost head = seq![BlockStep::FillNeighboursRefCounts, BlockStep::WriteRefFrames] + (if b.luma_mode.compound() {
        seq![BlockStep::WriteCompoundMode { mode: b.luma_mode }]
    } else {
        seq![BlockStep::WriteInterMode { mode: b.luma_mode }]
    });
    assert(out@ =~= before + head);
    push_new_drl(out, m, stack);
    push_mvs(out, f, b, stack);
    push_near_drl(out, m, stack);
    proof {
        let s1 = new_drl_steps(m, stack@);
        let s2 = mv_steps(*f, *b, stack@);
        let s3 = near_drl_steps(m, stack@);
        lemma_assoc(before, head, s1);
        lemma_assoc(before, head + s1, s2);
        lemma_assoc(before, head + s1 + s2, s3);
    }
}

proof fn lemma_assoc(a: Steps, b: Steps, c: Steps)
    ensures
        (a + b) + c == a + (b + c),
{
    assert((a + b) + c =~= a + (b + c));
}

fn push_mode(out: &mut Vec<BlockStep>, f: &BlockSettings, b: &CodedBlock, stack: &[CandidateMV])
    ensures
        final(out)@ == old(out)@ + mode_steps(*f, *b, stack@),
{
    let ghost before = out@;
    let inter: bool = b.luma_mode.is_inter();
    if f.has_inter {
        out.push(BlockStep::WriteIsInter { is_inter: inter });
        let ghost first = seq![BlockStep::WriteIsInter { is_inter: inter }];
        assert(out@ =~= before + first);
        if inter {
            push_inter(out, f, b, stack);
            proof {
                lemma_assoc(before, first, inter_steps(*f, *b, stack@));
            }
        } else {
            out.push(BlockStep::WriteIntraMode { mode: b.luma_mode });
            assert(out@ =~= before + (first + seq![BlockStep::WriteIntraMode { mode: b.luma_mode }]));
        }
    } else {
        out.push(BlockStep::WriteIntraModeKf { mode: b.luma_mode });
        assert(out@ =~= before + seq![BlockStep::WriteIntraModeKf { mode: b.luma_mode }]);
    }
}

fn push_residual(out: &mut Vec<BlockStep>, f: &BlockSettings, b: &CodedBlock)
    ensures
        final(out)@ == old(out)@ + residual_steps(*f, *b),
{
    let ghost before = out@;
    let pixels: usize = b.tx_size.area();
    push_when(out, b.keep_stats, BlockStep::CountStats { pixels });
    push_when(out, f.enable_intra_edge_filter && !b.counts_only, BlockStep::RecordBlockInfo);
    if b.luma_mode.is_inter() {
        out.push(BlockStep::MotionCompensate);
        out.push(BlockStep::WriteTxTree);
    } else {
        out.push(BlockStep::WriteTxBlocks);
    }
    assert(out@ =~= before + residual_steps(*f, *b));
}

fn push_intra(out: &mut Vec<BlockStep>, f: &BlockSettings, b: &CodedBlock)
    ensures
        final(out)@ == old(out)@ + intra_steps(*f, *b),
{
    let ghost before = out@;
    let chroma: bool = has_chroma(b.bo, b.bsize, f.xdec, f.ydec, f.chroma_sampling);
    let large: bool = BlockSize::BLOCK_8X8.le(b.bsize);
    let w: usize = b.bsize.width();
    let h: usize = b.bsize.height();
    push_when(out, b.luma_mode.is_directional() && large, BlockStep::WriteAngleDelta { delta: b.angle_delta_y, mode: b.luma_mode });
    push_when(out, chroma, BlockStep::WriteIntraUvMode);
    push_when(out, chroma && b.chroma_mode == PredictionMode::UV_CFL_PRED, BlockStep::WriteCflAlphas);
    push_when(
        out,
        chroma && b.chroma_mode.is_directional() && large,
        BlockStep::WriteAngleDelta { delta: b.angle_delta_uv, mode: b.chroma_mode },
    );
    push_when(out, f.allow_screen_content_tools > 0 && large && w <= 64 && h <= 64, BlockStep::WriteUsePaletteMode);
    push_when(out, f.enable_filter_intra && b.luma_mode == PredictionMode::DC_PRED && w <= 32 && h <= 32, BlockStep::WriteUseFilterIntra);
    assert(out@ =~= before + intra_steps(*f, *b));
}

fn push_tx_size(out: &mut Vec<BlockStep>, f: &BlockSettings, b: &CodedBlock)
    ensures
        final(out)@ == old(out)@ + tx_size_steps(*f, *b),
{
    let ghost before = out@;
    let inter: bool = b.luma_mode.is_inter();
    if f.tx_mode_select {
        if b.bsize != BlockSize::BLOCK_4X4 && (!inter || !b.skip) {
            if !inter {
                out.push(BlockStep::WriteTxSizeIntra);
                push_when(out, !b.counts_only, BlockStep::UpdateTxSizeContext { skip: false });
            } else {
                let max_tx_size: TxSize = b.bsize.tx_size();
                proof {
                    crate::transform::lemma_tx_size_by_log2(max_tx_size, largest_tx(b.bsize));
                }
                let split: bool = f.enable_inter_txfm_split && b.bsize.gt(b.tx_size.block_size());
                out.push(BlockStep::WriteTxSizeInter { max_tx_size, split });
            }
        } else {
            push_when(out, !b.counts_only, BlockStep::UpdateTxSizeContext { skip: inter && b.skip });
        }
    }
    assert(out@ =~= before + tx_size_steps(*f, *b));
}

/// The steps of coding a block after the filter index, in order.
pub fn encode_block_post_cdef(f: &BlockSettings, b: &CodedBlock, mv_stack: &[CandidateMV]) -> (r: Vec<BlockStep>)
    requires
        modes_agree(*b, mv_stack@),
        cfl_fits(*f, *b),
    ensures
        r@ == post_cdef_steps(*f, *b, mv_stack@),
{
    let mut out: Vec<BlockStep> = Vec::new();
    push_contexts(&mut out, b);
    assert(out@ =~= context_steps(*b));
    push_deltas(&mut out, f, b);
    push_mode(&mut out, f, b, mv_stack);
    let ghost a = out@;
    if !b.luma_mode.is_inter() {
        push_intra(&mut out, f, b);
    }
    assert(b.luma_mode.inter() ==> a + Seq::<BlockStep>::empty() =~= a);
    push_tx_size(&mut out, f, b);
    push_residual(&mut out, f, b);
    reveal(post_cdef_steps);
    out
}

/// The mode that codes a single motion vector: the last of the first four
/// candidates that has it, else a new one; a zero vector that no candidate has is
/// named by how many candidates there are.
pub open spec fn remapped_single(mv: MotionVector, stack: Seq<CandidateMV>) -> PredictionMode {
    let zero = mv.row == 0 && mv.col == 0;
    if stack.len() > 3 && stack[3].this_mv == mv {
        PredictionMode::NEAR2MV
    } else if stack.len() > 2 && stack[2].this_mv == mv {
        PredictionMode::NEAR1MV
    } else if stack.len() > 1 && stack[1].this_mv == mv {
        PredictionMode::NEAR0MV
    } else if stack.len() > 0 && stack[0].this_mv == mv {
        PredictionMode::NEARESTMV
    } else if zero && stack.len() == 0 {
        PredictionMode::NEARESTMV
    } else if zero && stack.len() == 1 {
        PredictionMode::NEAR0MV
    } else if zero {
        PredictionMode::GLOBALMV
    } else {
        PredictionMode::NEWMV
    }
}

/// Candidate `i` has both motion vectors.
pub open spec fn both_match(mvs: Seq<MotionVector>, stack: Seq<CandidateMV>, i: int) -> bool {
    i < stack.len() && stack[i].this_mv == mvs[0] && stack[i].comp_mv == mvs[1]
}

/// The mode that codes two motion vectors: the first of four candidates that has
/// both, else the first candidate where it has one, else two new ones; two zero
/// vectors that are not the first candidate's are the global motion.
pub open spec fn remapped_compound(mvs: Seq<MotionVector>, stack: Seq<CandidateMV>) -> PredictionMode {
    let zero = mvs[0].row == 0 && mvs[0].col == 0 && mvs[1].row == 0 && mvs[1].col == 0;
    if both_match(mvs, stack, 0) {
        PredictionMode::NEAREST_NEARESTMV
    } else if zero {
        PredictionMode::GLOBAL_GLOBALMV
    } else if both_match(mvs, stack, 1) {
        PredictionMode::NEAR_NEAR0MV
    } else if both_match(mvs, stack, 2) {
        PredictionMode::NEAR_NEAR1MV
    } else if both_match(mvs, stack, 3) {
        PredictionMode::NEAR_NEAR2MV
    } else if stack[0].this_mv == mvs[0] {
        PredictionMode::NEAREST_NEWMV
    } else if stack[0].comp_mv == mvs[1] {
        PredictionMode::NEW_NEARESTMV
    } else {
        PredictionMode::NEW_NEWMV
    }
}

/// The mode under which a block's motion vectors are coded, now that the
/// candidates are final; the modes of global motion stay.
pub open spec fn remapped_mode(mode: PredictionMode, compound: bool, mvs: Seq<MotionVector>, stack: Seq<CandidateMV>) -> PredictionMode {
    if !mode.inter() {
        mode
    } else if compound {
        if mode == PredictionMode::GLOBAL_GLOBALMV { mode } else { remapped_compound(mvs, stack) }
    } else if mode == PredictionMode::GLOBALMV {
        mode
    } else {
        remapped_single(mvs[0], stack)
    }
}

/// The mode under which a block's motion vectors are coded.
pub fn remap_mode(mode: PredictionMode, ref_frames: [RefType; 2], mvs: [MotionVector; 2], stack: &[CandidateMV]) -> (r: PredictionMode)
    requires
        mode.inter() && ref_frames@[1] != RefType::NONE_FRAME && mode != PredictionMode::GLOBAL_GLOBALMV ==> stack.len() >= 2,
    ensures
        r == remapped_mode(mode, ref_frames@[1] != RefType::NONE_FRAME, mvs@, stack@),
{
    if !mode.is_inter() {
        return mode;
    }
    let zero0: bool = mvs[0].row == 0 && mvs[0].col == 0;
    let n: usize = stack.len();
    if ref_frames[1] != RefType::NONE_FRAME {
        if mode == PredictionMode::GLOBAL_GLOBALMV {
            return mode;
        }
        let match0: bool = stack[0].this_mv == mvs[0];
        let match1: bool = stack[0].comp_mv == mvs[1];
        if match0 && match1 {
            return PredictionMode::NEAREST_NEARESTMV;
        }
        if zero0 && mvs[1].row == 0 && mvs[1].col == 0 {
            return PredictionMode::GLOBAL_GLOBALMV;
        }
        if stack[1].this_mv == mvs[0] && stack[1].comp_mv == mvs[1] {
            PredictionMode::NEAR_NEAR0MV
        } else if n > 2 && stack[2].this_mv == mvs[0] && stack[2].comp_mv == mvs[1] {
            PredictionMode::NEAR_NEAR1MV
        } else if n > 3 && stack[3].this_mv == mvs[0] && stack[3].comp_mv == mvs[1] {
            PredictionMode::NEAR_NEAR2MV
        } else if match0 {
            PredictionMode::NEAREST_NEWMV
        } else if match1 {
            PredictionMode::NEW_NEARESTMV
        } else {
            PredictionMode::NEW_NEWMV
        }
    } else {
        if mode == PredictionMode::GLOBALMV {
            return mode;
        }
        if n > 3 && stack[3].this_mv == mvs[0] {
            PredictionMode::NEAR2MV
        } else if n > 2 && stack[2].this_mv == mvs[0] {
            PredictionMode::NEAR1MV
        } else if n > 1 && stack[1].this_mv == mvs[0] {
            PredictionMode::NEAR0MV
        } else if n > 0 && stack[0].this_mv == mvs[0] {
            PredictionMode::NEARESTMV
        } else if zero0 {
            if n == 0 {
                PredictionMode::NEARESTMV
            } else if n == 1 {
                PredictionMode::NEAR0MV
            } else {
                PredictionMode::GLOBALMV
            }
        } else {
            PredictionMode::NEWMV
        }
    }
}

/// A remapped mode names the block's motion vectors: what is coded under it gives the
/// vectors back.
pub proof fn law_remapped_modes_agree(b: CodedBlock, mode: PredictionMode, compound: bool, stack: Seq<CandidateMV>)
    requires
        mode.inter(),
        b.luma_mode == remapped_mode(mode, compound, b.mvs@, stack),
        compound ==> stack.len() >= 2,
        b.chroma_mode == b.luma_mode,
    ensures
        modes_agree(b, stack),
{
}

/// A step between the decision of a block's modes and its syntax.
#[derive(Clone, Copy, Debug, PartialEq, Eq, Structural)]
pub enum PrepStep {
    /// Record the segment of the block, which its quantizer and its syntax go by.
    SetSegment { sidx: u8 },
    /// Find the candidates for the motion vectors.
    FindCandidates { is_compound: bool },
    /// Decide the size and the type of the transform.
    DecideTransform { skip: bool },
    /// Name the motion vectors by the final candidates.
    RemapMode,
    /// Keep the motion for the searches of later blocks.
    SaveMotion,
}

/// One step if the condition holds.
pub open spec fn prep_when(c: bool, s: PrepStep) -> Seq<PrepStep> {
    if c { seq![s] } else { seq![] }
}

/// What a block with decided modes still needs before it is coded.
pub struct ModesPlan {
    /// What comes first, in order.
    pub steps: Vec<PrepStep>,
    /// The block is coded as skipped.
    pub skip: bool,
    /// The transform is decided anew: the block was to have a residual but has no
    /// coefficient.
    pub redo_tx: bool,
    /// The block is predicted from two references.
    pub is_compound: bool,
    /// The filter index is coded from here on.
    pub cdef_coded: bool,
    /// The flags before the filter index go after it, as an earlier block coded
    /// it.
    pub pre_after_cdef: bool,
}

/// What a block with decided modes still needs: its segment is recorded first of all,
/// and one without coefficients is skipped after all.
pub fn encode_block_with_modes(sidx: u8, skip: bool, has_coeff: bool, ref_frames: [RefType; 2], enable_cdef: bool, cdef_coded: bool) -> (r: ModesPlan)
    ensures
        r.redo_tx == (!skip && !has_coeff),
        r.skip == (skip || !has_coeff),
        r.is_compound == (ref_frames@[1] != RefType::NONE_FRAME),
        r.pre_after_cdef == cdef_coded,
        r.cdef_coded == (cdef_coded || !r.skip && enable_cdef),
        r.steps@ == seq![PrepStep::SetSegment { sidx }, PrepStep::FindCandidates { is_compound: r.is_compound }] + prep_when(
            r.redo_tx,
            PrepStep::DecideTransform { skip: true },
        ),
{
    let redo_tx: bool = !skip && !has_coeff;
    let now_skip: bool = skip || redo_tx;
    let is_compound: bool = ref_frames[1] != RefType::NONE_FRAME;
    let mut steps: Vec<PrepStep> = Vec::new();
    steps.push(PrepStep::SetSegment { sidx });
    steps.push(PrepStep::FindCandidates { is_compound });
    if redo_tx {
        steps.push(PrepStep::DecideTransform { skip: true });
    }
    assert(steps@ =~= seq![PrepStep::SetSegment { sidx }, PrepStep::FindCandidates { is_compound }] + prep_when(
        redo_tx,
        PrepStep::DecideTransform { skip: true },
    ));
    ModesPlan { steps, skip: now_skip, redo_tx, is_compound, cdef_coded: cdef_coded || (!now_skip && enable_cdef), pre_after_cdef: cdef_coded }
}

/// What comes before a block that the top-down search codes whole: its segment, its
/// transform, which is decided again as the blocks around it may have changed, its
/// candidates, and for an inter block its final mode and its motion.
pub fn prepare_whole(sidx: u8, skip: bool, luma_mode: PredictionMode, ref_frames: [RefType; 2]) -> (r: Vec<PrepStep>)
    ensures
        r@ == seq![
            PrepStep::SetSegment { sidx },
            PrepStep::DecideTransform { skip },
            PrepStep::FindCandidates { is_compound: ref_frames@[1] != RefType::NONE_FRAME },
        ] + prep_when(luma_mode.inter(), PrepStep::RemapMode) + prep_when(luma_mode.inter(), PrepStep::SaveMotion),
{
    let is_compound: bool = ref_frames[1] != RefType::NONE_FRAME;
    let mut steps: Vec<PrepStep> = Vec::new();
    steps.push(PrepStep::SetSegment { sidx });
    steps.push(PrepStep::DecideTransform { skip });
    steps.push(PrepStep::FindCandidates { is_compound });
    if luma_mode.is_inter() {
        steps.push(PrepStep::RemapMode);
        steps.push(PrepStep::SaveMotion);
    }
    assert(steps@ =~= seq![PrepStep::SetSegment { sidx }, PrepStep::DecideTransform { skip }, PrepStep::FindCandidates { is_compound }]
        + prep_when(luma_mode.inter(), PrepStep::RemapMode) + prep_when(luma_mode.inter(), PrepStep::SaveMotion));
    steps
}

/// How many samples were coded in blocks of each kind.
#[derive(Clone, Copy, Debug)]
pub struct EncoderStats {
    /// By block size.
    pub block_size_counts: [usize; 22],
    /// By transform type.
    pub tx_type_counts: [usize; 16],
    /// By luma mode.
    pub luma_pred_mode_counts: [usize; 34],
    /// By chroma mode.
    pub chroma_pred_mode_counts: [usize; 34],
    /// In skipped blocks.
    pub skip_block_count: usize,
}

impl Default for EncoderStats {
    /// Nothing coded yet.
    fn default() -> (r: Self)
        ensures
            r.is_empty(),
    {
        EncoderStats {
            block_size_counts: [0; 22],
            tx_type_counts: [0; 16],
            luma_pred_mode_counts: [0; 34],
            chroma_pred_mode_counts: [0; 34],
            skip_block_count: 0,
        }
    }
}

/// A count raised by `n`.
pub open spec fn raised(s: Seq<usize>, i: int, n: int) -> Seq<usize> {
    s.update(i, (s[i] + n) as usize)
}

impl EncoderStats {
    /// Nothing is counted.
    pub open spec fn is_empty(self) -> bool {
        &&& forall|i: int| 0 <= i < 22 ==> #[trigger] self.block_size_counts@[i] == 0
        &&& forall|i: int| 0 <= i < 16 ==> #[trigger] self.tx_type_counts@[i] == 0
        &&& forall|i: int| 0 <= i < 34 ==> #[trigger] self.luma_pred_mode_counts@[i] == 0
        &&& forall|i: int| 0 <= i < 34 ==> #[trigger] self.chroma_pred_mode_counts@[i] == 0
        &&& self.skip_block_count == 0
    }

    /// The counts have room for `n` samples more of the block.
    pub open spec fn has_room(self, b: CodedBlock, n: int) -> bool {
        &&& self.block_size_counts@[b.bsize.place()] + n <= usize::MAX
        &&& self.tx_type_counts@[b.tx_type.idx()] + n <= usize::MAX
        &&& self.luma_pred_mode_counts@[b.luma_mode.idx()] + n <= usize::MAX
        &&& self.chroma_pred_mode_counts@[b.chroma_mode.idx()] + n <= usize::MAX
        &&& b.skip ==> self.skip_block_count + n <= usize::MAX
    }

    /// Adds a block, with the samples of one transform: to the counts of its size, its
    /// transform type and its two modes, and to that of skipped blocks if it is one.
    pub fn count(&mut self, b: &CodedBlock)
        requires
            old(self).has_room(*b, b.tx_size.w() * b.tx_size.h()),
        ensures
            ({
                let n = b.tx_size.w() * b.tx_size.h();
                &&& final(self).block_size_counts@ == raised(old(self).block_size_counts@, b.bsize.place(), n)
                &&& final(self).tx_type_counts@ == raised(old(self).tx_type_counts@, b.tx_type.idx(), n)
                &&& final(self).luma_pred_mode_counts@ == raised(old(self).luma_pred_mode_counts@, b.luma_mode.idx(), n)
                &&& final(self).chroma_pred_mode_counts@ == raised(old(self).chroma_pred_mode_counts@, b.chroma_mode.idx(), n)
                &&& final(self).skip_block_count == old(self).skip_block_count + if b.skip { n } else { 0 }
            }),
    {
        let pixels: usize = b.tx_size.area();
        let size: usize = b.bsize.index();
        self.block_size_counts[size] = self.block_size_counts[size] + pixels;
        let kind: usize = b.tx_type.index();
        self.tx_type_counts[kind] = self.tx_type_counts[kind] + pixels;
        let luma: usize = b.luma_mode.index();
        self.luma_pred_mode_counts[luma] = self.luma_pred_mode_counts[luma] + pixels;
        let chroma: usize = b.chroma_mode.index();
        self.chroma_pred_mode_counts[chroma] = self.chroma_pred_mode_counts[chroma] + pixels;
        if b.skip {
            self.skip_block_count = self.skip_block_count + pixels;
        }
    }
}

/// What the edge filters of later blocks read of a coded block.
#[derive(Clone, Copy, Debug)]
pub struct CodedBlockInfo {
    pub luma_mode: PredictionMode,
    pub chroma_mode: PredictionMode,
    pub reference_types: [RefType; 2],
}

/// Records the modes and the references of a block in every unit of it that lies
/// inside the tile, and nowhere else.
pub fn record_block_info(grid: &mut TileGrid<CodedBlockInfo>, b: &CodedBlock, ref_frames: [RefType; 2])
    requires
        old(grid).wf(),
        b.bo.x <= usize::MAX - 32,
        b.bo.y <= usize::MAX - 32,
    ensures
        final(grid).wf(),
        final(grid).cols == old(grid).cols,
        final(grid).rows == old(grid).rows,
        forall|x: int, y: int| 0 <= x < old(grid).cols && 0 <= y < old(grid).rows ==> #[trigger] final(grid).cell(x, y) == if b.bo.x <= x < b.bo.x
            + b.bsize.w() / 4 && b.bo.y <= y < b.bo.y + b.bsize.h() / 4 {
            (CodedBlockInfo { luma_mode: b.luma_mode, chroma_mode: b.chroma_mode, reference_types: ref_frames })
        } else {
            old(grid).cell(x, y)
        },
{
    grid.fill_block(b.bo, b.bsize, CodedBlockInfo { luma_mode: b.luma_mode, chroma_mode: b.chroma_mode, reference_types: ref_frames });
}

/// The steps that write.
pub open spec fn written(s: Steps) -> Steps {
    s.filter(|x: BlockStep| x.writes())
}

proof fn lemma_written_add(s: Steps, t: Steps)
    ensures
        written(s + t) == written(s) + written(t),
{
    Seq::filter_distributes_over_add(s, t, |x: BlockStep| x.writes());
}

proof fn lemma_written_none(c: bool, s: BlockStep)
    requires
        !s.writes(),
    ensures
        written(when(c, s)) =~= Seq::<BlockStep>::empty(),
{
    reveal(Seq::filter);
    let p = |x: BlockStep| x.writes();
    let e = Seq::<BlockStep>::empty();
    assert(e.filter(p) =~= e);
    if c {
        assert(seq![s].drop_last() =~= e);
        assert(!p(seq![s].last()));
    }
}

/// A trial codes what the final encode codes: of the same block, both write the
/// same elements in the same order, and differ only in the contexts they record.
pub proof fn law_trials_write_the_same(f: BlockSettings, b: CodedBlock, trial: CodedBlock, stack: Seq<CandidateMV>)
    requires
        trial == (CodedBlock { counts_only: !b.counts_only, ..b }),
    ensures
        written(post_cdef_steps(f, b, stack)) == written(post_cdef_steps(f, trial, stack)),
{
    lemma_like_a_trial(f, b, stack);
    lemma_like_a_trial(f, trial, stack);
    let c = CodedBlock { counts_only: true, ..b };
    assert(c == CodedBlock { counts_only: true, ..trial });
}

/// What a block writes does not depend on whether it is a trial.
proof fn lemma_like_a_trial(f: BlockSettings, b: CodedBlock, stack: Seq<CandidateMV>)
    ensures
        written(post_cdef_steps(f, b, stack)) == written(post_cdef_steps(f, CodedBlock { counts_only: true, ..b }, stack)),
{
    let c = CodedBlock { counts_only: true, ..b };
    lemma_written_post(f, b, stack);
    lemma_written_post(f, c, stack);
    lemma_written_contexts(b);
    lemma_written_contexts(c);
    lemma_written_tx_size(f, b);
    lemma_written_residual(f, b);
    lemma_modes_of_a_trial(f, b, stack);
}

proof fn lemma_modes_of_a_trial(f: BlockSettings, b: CodedBlock, stack: Seq<CandidateMV>)
    ensures
        ({
            let c = CodedBlock { counts_only: true, ..b };
            &&& delta_steps(f, b) == delta_steps(f, c)
            &&& mode_steps(f, b, stack) == mode_steps(f, c, stack)
            &&& intra_steps(f, b) == intra_steps(f, c)
            &&& c.luma_mode == b.luma_mode
        }),
{
}

proof fn lemma_written_post(f: BlockSettings, b: CodedBlock, stack: Seq<CandidateMV>)
    ensures
        written(post_cdef_steps(f, b, stack)) == written(context_steps(b)) + written(delta_steps(f, b)) + written(mode_steps(f, b, stack)) + written(
            if b.luma_mode.inter() { seq![] } else { intra_steps(f, b) },
        ) + written(tx_size_steps(f, b)) + written(residual_steps(f, b)),
{
    reveal(post_cdef_steps);
    let s1 = context_steps(b);
    let s2 = delta_steps(f, b);
    let s3 = mode_steps(f, b, stack);
    let s4: Steps = if b.luma_mode.inter() { seq![] } else { intra_steps(f, b) };
    let s5 = tx_size_steps(f, b);
    let s6 = residual_steps(f, b);
    lemma_written_add(s1 + s2 + s3 + s4 + s5, s6);
    lemma_written_add(s1 + s2 + s3 + s4, s5);
    lemma_written_add(s1 + s2 + s3, s4);
    lemma_written_add(s1 + s2, s3);
    lemma_written_add(s1, s2);
}

proof fn lemma_written_contexts(b: CodedBlock)
    ensures
        written(context_steps(b)) == written(seq![BlockStep::SetRefFrames]),
{
    let w1 = when(b.skip && !b.counts_only, BlockStep::ResetSkipContext);
    let w2 = when(!b.counts_only, BlockStep::SetBlockSize);
    let w3 = when(!b.counts_only, BlockStep::SetMode);
    let w4 = when(!b.counts_only, BlockStep::SetTxSize);
    let w5 = when(!b.counts_only, BlockStep::SetMotionVectors);
    let w6 = seq![BlockStep::SetRefFrames];
    lemma_written_add(w1 + w2 + w3 + w4 + w5, w6);
    lemma_written_add(w1 + w2 + w3 + w4, w5);
    lemma_written_add(w1 + w2 + w3, w4);
    lemma_written_add(w1 + w2, w3);
    lemma_written_add(w1, w2);
    lemma_written_none(b.skip && !b.counts_only, BlockStep::ResetSkipContext);
    lemma_written_none(!b.counts_only, BlockStep::SetBlockSize);
    lemma_written_none(!b.counts_only, BlockStep::SetMode);
    lemma_written_none(!b.counts_only, BlockStep::SetTxSize);
    lemma_written_none(!b.counts_only, BlockStep::SetMotionVectors);
    assert(written(context_steps(b)) =~= written(w6));
}

proof fn lemma_written_tx_size(f: BlockSettings, b: CodedBlock)
    ensures
        written(tx_size_steps(f, b)) == written(tx_size_steps(f, CodedBlock { counts_only: true, ..b })),
{
    let c = CodedBlock { counts_only: true, ..b };
    let u = BlockStep::UpdateTxSizeContext { skip: false };
    let v = BlockStep::UpdateTxSizeContext { skip: b.luma_mode.inter() && b.skip };
    lemma_written_none(!b.counts_only, u);
    lemma_written_none(!b.counts_only, v);
    lemma_written_none(false, u);
    lemma_written_none(false, v);
    lemma_written_add(seq![BlockStep::WriteTxSizeIntra], when(!b.counts_only, u));
    lemma_written_add(seq![BlockStep::WriteTxSizeIntra], when(false, u));
    assert(written(tx_size_steps(f, b)) =~= written(tx_size_steps(f, c)));
}

proof fn lemma_written_residual(f: BlockSettings, b: CodedBlock)
    ensures
        written(residual_steps(f, b)) == written(residual_steps(f, CodedBlock { counts_only: true, ..b })),
{
    let c = CodedBlock { counts_only: true, ..b };
    let w1 = when(b.keep_stats, BlockStep::CountStats { pixels: (b.tx_size.w() * b.tx_size.h()) as usize });
    let w2 = when(f.enable_intra_edge_filter && !b.counts_only, BlockStep::RecordBlockInfo);
    let w2c = when(f.enable_intra_edge_filter && false, BlockStep::RecordBlockInfo);
    let w3: Steps = if b.luma_mode.inter() { seq![BlockStep::MotionCompensate, BlockStep::WriteTxTree] } else { seq![BlockStep::WriteTxBlocks] };
    lemma_written_add(w1 + w2, w3);
    lemma_written_add(w1, w2);
    lemma_written_add(w1 + w2c, w3);
    lemma_written_add(w1, w2c);
    lemma_written_none(f.enable_intra_edge_filter && !b.counts_only, BlockStep::RecordBlockInfo);
    lemma_written_none(f.enable_intra_edge_filter && false, BlockStep::RecordBlockInfo);
    assert(residual_steps(f, b) == w1 + w2 + w3);
    assert(residual_steps(f, c) == w1 + w2c + w3);
}

/// The steps of one kind, in order.
pub open spec fn vectors_of(s: Steps) -> Steps {
    s.filter(|x: BlockStep| x is WriteMv)
}

/// The steps of one kind, in order.
pub open spec fn indices_of(s: Steps) -> Steps {
    s.filter(|x: BlockStep| x is WriteDrlMode)
}

/// What a reader makes of a coded vector: the difference that is coded, on top of the
/// vector that it starts from.
pub open spec fn read_vector(s: BlockStep, base: MotionVector) -> (int, int) {
    match s {
        BlockStep::WriteMv { mv, ref_mv, .. } => (base.row + (mv.row - ref_mv.row), base.col + (mv.col - ref_mv.col)),
        _ => (0, 0),
    }
}

/// The vector that a reader starts from: that of the first candidate for the same
/// reference, or zero where there is no candidate.
pub open spec fn reader_base(stack: Seq<CandidateMV>, reference: int) -> MotionVector {
    if stack.len() == 0 {
        MotionVector { row: 0, col: 0 }
    } else if reference == 0 {
        stack[0].this_mv
    } else {
        stack[0].comp_mv
    }
}

/// The mode codes the vector of the first, or of the second, reference anew.
pub open spec fn codes_anew(m: PredictionMode, reference: int) -> bool {
    match m {
        PredictionMode::NEWMV | PredictionMode::NEW_NEARESTMV => reference == 0,
        PredictionMode::NEAREST_NEWMV => reference == 1,
        PredictionMode::NEW_NEWMV => true,
        _ => false,
    }
}

/// The candidate that a reader takes, from place `at` on, when it reads one flag after
/// another: a flag that is set moves it on, and it stops at one that is not, or where no
/// further candidate is left to choose.
pub open spec fn read_index(flags: Steps, n: int, at: int, most: int) -> int
    decreases most - at,
{
    if at >= most || n <= at + 1 || flags.len() == 0 {
        at
    } else {
        match flags[0] {
            BlockStep::WriteDrlMode { drl_mode: true, .. } => read_index(flags.skip(1), n, at + 1, most),
            _ => at,
        }
    }
}

/// How many flags a reader takes before it stops.
pub open spec fn flags_read(flags: Steps, n: int, at: int, most: int) -> int
    decreases most - at,
{
    if at >= most || n <= at + 1 || flags.len() == 0 {
        0
    } else {
        match flags[0] {
            BlockStep::WriteDrlMode { drl_mode: true, .. } => 1 + flags_read(flags.skip(1), n, at + 1, most),
            _ => 1,
        }
    }
}

/// How many of two candidates come from blocks that are not adjacent.
pub open spec fn far_candidates(a: CandidateMV, b: CandidateMV) -> int {
    (if a.weight >= 640 { 0int } else { 1 }) + (if b.weight >= 640 { 0int } else { 1 })
}

/// No step of the kinds at hand is among these.
spec fn free_of(s: Steps, p: spec_fn(BlockStep) -> bool) -> bool {
    forall|i: int| 0 <= i < s.len() ==> !p(#[trigger] s[i])
}

proof fn lemma_filter_part(s1: Steps, s2: Steps, s3: Steps, s4: Steps, s5: Steps, s6: Steps, p: spec_fn(BlockStep) -> bool)
    requires
        free_of(s1, p),
        free_of(s2, p),
        free_of(s4, p),
        free_of(s5, p),
        free_of(s6, p),
    ensures
        (s1 + s2 + s3 + s4 + s5 + s6).filter(p) =~= s3.filter(p),
{
    Seq::filter_distributes_over_add(s1 + s2 + s3 + s4 + s5, s6, p);
    Seq::filter_distributes_over_add(s1 + s2 + s3 + s4, s5, p);
    Seq::filter_distributes_over_add(s1 + s2 + s3, s4, p);
    Seq::filter_distributes_over_add(s1 + s2, s3, p);
    Seq::filter_distributes_over_add(s1, s2, p);
    lemma_filter_nothing(s1, p);
    lemma_filter_nothing(s2, p);
    lemma_filter_nothing(s4, p);
    lemma_filter_nothing(s5, p);
    lemma_filter_nothing(s6, p);
}

proof fn lemma_filter_tail(s0: Steps, s1: Steps, s2: Steps, s3: Steps, s4: Steps, s5: Steps, p: spec_fn(BlockStep) -> bool)
    requires
        free_of(s0, p),
        free_of(s1, p),
        free_of(s2, p),
    ensures
        (s0 + (s1 + s2 + s3 + s4 + s5)).filter(p) =~= s3.filter(p) + s4.filter(p) + s5.filter(p),
{
    Seq::filter_distributes_over_add(s0, s1 + s2 + s3 + s4 + s5, p);
    Seq::filter_distributes_over_add(s1 + s2 + s3 + s4, s5, p);
    Seq::filter_distributes_over_add(s1 + s2 + s3, s4, p);
    Seq::filter_distributes_over_add(s1 + s2, s3, p);
    Seq::filter_distributes_over_add(s1, s2, p);
    lemma_filter_nothing(s0, p);
    lemma_filter_nothing(s1, p);
    lemma_filter_nothing(s2, p);
}

/// The vectors and indices of a block all belong to the mode of an inter block.
proof fn lemma_filtered(f: BlockSettings, b: CodedBlock, stack: Seq<CandidateMV>, p: spec_fn(BlockStep) -> bool)
    requires
        forall|x: BlockStep| #[trigger] p(x) ==> x is WriteMv || x is WriteDrlMode,
        f.has_inter,
        b.luma_mode.inter(),
    ensures
        post_cdef_steps(f, b, stack).filter(p) =~= new_drl_steps(b.luma_mode, stack).filter(p) + mv_steps(f, b, stack).filter(p) + near_drl_steps(
            b.luma_mode,
            stack,
        ).filter(p),
{
    assert(free_of(context_steps(b), p)) by {
        lemma_placed_contexts(b);
        lemma_free_by_place(context_steps(b), 0, 6, p);
    }
    assert(free_of(delta_steps(f, b), p)) by {
        lemma_placed_deltas(f, b);
        lemma_free_by_place(delta_steps(f, b), 6, 8, p);
    }
    assert(free_of(tx_size_steps(f, b), p)) by {
        lemma_placed_tx_size(f, b);
        lemma_free_by_place(tx_size_steps(f, b), 21, 24, p);
    }
    assert(free_of(residual_steps(f, b), p)) by {
        lemma_placed_residual(f, b);
        lemma_free_by_place(residual_steps(f, b), 24, 29, p);
    }
    lemma_filter_part(context_steps(b), delta_steps(f, b), mode_steps(f, b, stack), seq![], tx_size_steps(f, b), residual_steps(f, b), p);
    assert(post_cdef_steps(f, b, stack) == context_steps(b) + delta_steps(f, b) + mode_steps(f, b, stack) + seq![] + tx_size_steps(f, b) + residual_steps(
        f,
        b,
    )) by {
        reveal(post_cdef_steps);
    }
    lemma_filtered_modes(f, b, stack, p);
}

proof fn lemma_free_by_place(s: Steps, lo: int, hi: int, p: spec_fn(BlockStep) -> bool)
    requires
        forall|x: BlockStep| #[trigger] p(x) ==> x is WriteMv || x is WriteDrlMode,
        placed(s, lo, hi),
        hi <= 12 || lo >= 14,
    ensures
        free_of(s, p),
{
}

proof fn lemma_filtered_modes(f: BlockSettings, b: CodedBlock, stack: Seq<CandidateMV>, p: spec_fn(BlockStep) -> bool)
    requires
        forall|x: BlockStep| #[trigger] p(x) ==> x is WriteMv || x is WriteDrlMode,
        f.has_inter,
        b.luma_mode.inter(),
    ensures
        mode_steps(f, b, stack).filter(p) == new_drl_steps(b.luma_mode, stack).filter(p) + mv_steps(f, b, stack).filter(p) + near_drl_steps(
            b.luma_mode,
            stack,
        ).filter(p),
{
    let m = b.luma_mode;
    let head = seq![BlockStep::WriteIsInter { is_inter: m.inter() }];
    let i1 = seq![BlockStep::FillNeighboursRefCounts, BlockStep::WriteRefFrames];
    let i2: Steps = if m.compound() { seq![BlockStep::WriteCompoundMode { mode: m }] } else { seq![BlockStep::WriteInterMode { mode: m }] };
    lemma_filter_tail(head, i1, i2, new_drl_steps(m, stack), mv_steps(f, b, stack), near_drl_steps(m, stack), p);
}

proof fn lemma_filtered_vectors(f: BlockSettings, b: CodedBlock, stack: Seq<CandidateMV>)
    requires
        f.has_inter,
        b.luma_mode.inter(),
    ensures
        vectors_of(post_cdef_steps(f, b, stack)) =~= mv_steps(f, b, stack),
{
    let p = |x: BlockStep| x is WriteMv;
    let m = b.luma_mode;
    lemma_filtered(f, b, stack, p);
    lemma_filter_nothing(new_drl_steps(m, stack), p);
    lemma_filter_nothing(near_drl_steps(m, stack), p);
    lemma_filter_all(mv_steps(f, b, stack), p);
}

proof fn lemma_filtered_indices(f: BlockSettings, b: CodedBlock, stack: Seq<CandidateMV>)
    requires
        f.has_inter,
        b.luma_mode.inter(),
    ensures
        indices_of(post_cdef_steps(f, b, stack)) =~= new_drl_steps(b.luma_mode, stack) + near_drl_steps(b.luma_mode, stack),
{
    let p = |x: BlockStep| x is WriteDrlMode;
    let m = b.luma_mode;
    lemma_filtered(f, b, stack, p);
    lemma_filter_all(new_drl_steps(m, stack), p);
    lemma_filter_all(near_drl_steps(m, stack), p);
    lemma_filter_nothing(mv_steps(f, b, stack), p);
}

proof fn lemma_filter_all(s: Steps, p: spec_fn(BlockStep) -> bool)
    requires
        forall|i: int| 0 <= i < s.len() ==> p(#[trigger] s[i]),
    ensures
        s.filter(p) =~= s,
    decreases s.len(),
{
    reveal(Seq::filter);
    if s.len() > 0 {
        lemma_filter_all(s.drop_last(), p);
        assert(s.drop_last().push(s.last()) =~= s);
    }
}

proof fn lemma_filter_nothing(s: Steps, p: spec_fn(BlockStep) -> bool)
    requires
        forall|i: int| 0 <= i < s.len() ==> !p(#[trigger] s[i]),
    ensures
        s.filter(p) =~= Seq::<BlockStep>::empty(),
    decreases s.len(),
{
    reveal(Seq::filter);
    if s.len() > 0 {
        lemma_filter_nothing(s.drop_last(), p);
    }
}

/// Motion vectors that are coded anew can be read back: a reader that adds each coded
/// difference to the first candidate's vector for the same reference obtains the block's
/// vectors, in the order of the references. Every such vector is written, and no other.
pub proof fn law_motion_vectors_read_back(f: BlockSettings, b: CodedBlock, stack: Seq<CandidateMV>)
    requires
        f.has_inter,
        b.luma_mode.inter(),
    ensures
        ({
            let v = vectors_of(post_cdef_steps(f, b, stack));
            let first = codes_anew(b.luma_mode, 0);
            let second = codes_anew(b.luma_mode, 1);
            &&& v.len() == (if first { 1int } else { 0 }) + (if second { 1int } else { 0 })
            &&& first ==> read_vector(v[0], reader_base(stack, 0)) == (b.mvs@[0].row as int, b.mvs@[0].col as int)
            &&& second ==> read_vector(v.last(), reader_base(stack, 1)) == (b.mvs@[1].row as int, b.mvs@[1].col as int)
            &&& first ==> v[0]->ref_mv == reader_base(stack, 0) && v[0]->mv == b.mvs@[0]
            &&& second ==> v.last()->ref_mv == reader_base(stack, 1) && v.last()->mv == b.mvs@[1]
            &&& forall|i: int| 0 <= i < v.len() ==> {
                &&& (#[trigger] v[i])->precision == MvPrecision::Whole <==> f.force_integer_mv != 0
                &&& v[i]->precision == MvPrecision::High <==> f.force_integer_mv == 0 && f.allow_high_precision_mv
            }
        }),
{
    lemma_filtered_vectors(f, b, stack);
}

/// The place of a candidate can be read back. For a vector after the first candidate's a
/// reader starts at the second and arrives at the one that the mode names; for a vector
/// coded anew it starts at the first and stays there. It takes every flag that is written,
/// and each is coded by how many of the candidate at hand and the next are not adjacent.
pub proof fn law_candidate_places_read_back(f: BlockSettings, b: CodedBlock, stack: Seq<CandidateMV>)
    requires
        f.has_inter,
        b.luma_mode.inter(),
        b.luma_mode.nearmv() && b.luma_mode != PredictionMode::NEAR0MV ==> stack.len() > b.luma_mode.candidate(),
    ensures
        ({
            let d = indices_of(post_cdef_steps(f, b, stack));
            let n = stack.len() as int;
            let m = b.luma_mode;
            let start = if m.nearmv() { 1int } else { 0 };
            &&& m.nearmv() ==> read_index(d, n, 1, 3) == m.candidate() && flags_read(d, n, 1, 3) == d.len()
            &&& m == PredictionMode::NEWMV || m == PredictionMode::NEW_NEWMV ==> read_index(d, n, 0, 2) == 0 && flags_read(d, n, 0, 2) == d.len()
            &&& !m.nearmv() && m != PredictionMode::NEWMV && m != PredictionMode::NEW_NEWMV ==> d.len() == 0
            &&& m.nearmv() && n > 2 ==> d.len() >= 1
            &&& (m == PredictionMode::NEWMV || m == PredictionMode::NEW_NEWMV) && n > 1 ==> d.len() == 1
            &&& forall|i: int| 0 <= i < d.len() ==> start + i + 1 < n && (#[trigger] d[i])->ctx == far_candidates(stack[start + i], stack[start + i + 1])
        }),
{
    lemma_filtered_indices(f, b, stack);
    reveal_with_fuel(read_index, 4);
    reveal_with_fuel(flags_read, 4);
}

/// Where an element of a block's syntax stands among the others.
pub open spec fn rank(s: BlockStep) -> int {
    match s {
        BlockStep::ResetSkipContext => 0,
        BlockStep::SetBlockSize => 1,
        BlockStep::SetMode => 2,
        BlockStep::SetTxSize => 3,
        BlockStep::SetMotionVectors => 4,
        BlockStep::SetRefFrames => 5,
        BlockStep::WriteBlockDeblockDeltas { .. } => 6,
        BlockStep::ClearCodeDeltas => 7,
        BlockStep::WriteIsInter { .. } => 8,
        BlockStep::FillNeighboursRefCounts => 9,
        BlockStep::WriteRefFrames => 10,
        BlockStep::WriteCompoundMode { .. } | BlockStep::WriteInterMode { .. } => 11,
        BlockStep::WriteDrlMode { .. } => 12,
        BlockStep::WriteMv { .. } => 13,
        BlockStep::WriteIntraMode { .. } | BlockStep::WriteIntraModeKf { .. } => 14,
        BlockStep::WriteAngleDelta { .. } => 15,
        BlockStep::WriteIntraUvMode => 16,
        BlockStep::WriteCflAlphas => 17,
        BlockStep::WriteUsePaletteMode => 19,
        BlockStep::WriteUseFilterIntra => 20,
        BlockStep::WriteTxSizeIntra => 21,
        BlockStep::WriteTxSizeInter { .. } => 22,
        BlockStep::UpdateTxSizeContext { .. } => 23,
        BlockStep::CountStats { .. } => 24,
        BlockStep::RecordBlockInfo => 25,
        BlockStep::MotionCompensate => 26,
        BlockStep::WriteTxTree => 27,
        BlockStep::WriteTxBlocks => 28,
        _ => 29,
    }
}

/// Two steps of a block stand in the right order. An angle may belong to luma, before the
/// chroma mode, or to chroma, after it.
pub open spec fn in_order(a: BlockStep, b: BlockStep) -> bool {
    &&& !(a is WriteAngleDelta) && !(b is WriteAngleDelta) ==> rank(a) <= rank(b)
    &&& a is WriteAngleDelta ==> rank(b) >= 15
    &&& b is WriteAngleDelta ==> rank(a) <= 17
}

/// Every step has a place between two bounds, and none comes before an earlier one.
spec fn placed(s: Steps, lo: int, hi: int) -> bool {
    &&& forall|i: int| 0 <= i < s.len() ==> lo <= rank(#[trigger] s[i]) < hi
    &&& forall|i: int, j: int| 0 <= i < j < s.len() ==> rank(#[trigger] s[i]) <= rank(#[trigger] s[j])
}

proof fn lemma_placed_add(s: Steps, t: Steps, lo: int, mid: int, hi: int)
    requires
        placed(s, lo, mid),
        placed(t, mid, hi),
        lo <= mid <= hi,
    ensures
        placed(s + t, lo, hi),
{
}

proof fn lemma_placed_contexts(b: CodedBlock)
    ensures
        placed(context_steps(b), 0, 6),
{
    let w1 = when(b.skip && !b.counts_only, BlockStep::ResetSkipContext);
    let w2 = when(!b.counts_only, BlockStep::SetBlockSize);
    let w3 = when(!b.counts_only, BlockStep::SetMode);
    let w4 = when(!b.counts_only, BlockStep::SetTxSize);
    let w5 = when(!b.counts_only, BlockStep::SetMotionVectors);
    let w6 = seq![BlockStep::SetRefFrames];
    lemma_placed_add(w1, w2, 0, 1, 2);
    lemma_placed_add(w1 + w2, w3, 0, 2, 3);
    lemma_placed_add(w1 + w2 + w3, w4, 0, 3, 4);
    lemma_placed_add(w1 + w2 + w3 + w4, w5, 0, 4, 5);
    lemma_placed_add(w1 + w2 + w3 + w4 + w5, w6, 0, 5, 6);
}

proof fn lemma_placed_modes(f: BlockSettings, b: CodedBlock, stack: Seq<CandidateMV>)
    ensures
        placed(mode_steps(f, b, stack), 8, 15),
{
    let m = b.luma_mode;
    if f.has_inter && m.inter() {
        let head = seq![BlockStep::WriteIsInter { is_inter: m.inter() }];
        let i1 = seq![BlockStep::FillNeighboursRefCounts, BlockStep::WriteRefFrames];
        let i2: Steps = if m.compound() { seq![BlockStep::WriteCompoundMode { mode: m }] } else { seq![BlockStep::WriteInterMode { mode: m }] };
        let i3 = new_drl_steps(m, stack);
        let i4 = mv_steps(f, b, stack);
        let i5 = near_drl_steps(m, stack);
        lemma_placed_add(i1, i2, 9, 11, 12);
        lemma_placed_add(i1 + i2, i3, 9, 12, 13);
        if m.nearmv() {
            assert(i3 =~= seq![] && i4 =~= seq![]);
            assert(i1 + i2 + i3 + i4 =~= i1 + i2);
            lemma_placed_add(i1 + i2, i5, 9, 12, 13);
        } else {
            assert(i5 =~= seq![]);
            lemma_placed_add(i1 + i2 + i3, i4, 9, 13, 14);
            assert(i1 + i2 + i3 + i4 + i5 =~= i1 + i2 + i3 + i4);
        }
        lemma_placed_add(head, inter_steps(f, b, stack), 8, 9, 15);
    }
}

proof fn lemma_placed_deltas(f: BlockSettings, b: CodedBlock)
    ensures
        placed(delta_steps(f, b), 6, 8),
{
}

proof fn lemma_placed_tx_size(f: BlockSettings, b: CodedBlock)
    ensures
        placed(tx_size_steps(f, b), 21, 24),
{
}

proof fn lemma_placed_residual(f: BlockSettings, b: CodedBlock)
    ensures
        placed(residual_steps(f, b), 24, 29),
{
}

/// The steps of an intra block between its mode and its transform size.
spec fn ordered_intra(s: Steps) -> bool {
    &&& forall|k: int| 0 <= k < s.len() ==> 15 <= rank(#[trigger] s[k]) < 21
    &&& forall|k: int, l: int| 0 <= k < l < s.len() ==> in_order(#[trigger] s[k], #[trigger] s[l])
}

proof fn lemma_placed_intra(f: BlockSettings, b: CodedBlock)
    ensures
        ordered_intra(intra_steps(f, b)),
{
}

proof fn lemma_order(head: Steps, mid: Steps, tail: Steps, i: int, j: int)
    requires
        placed(head, 0, 15),
        ordered_intra(mid),
        placed(tail, 21, 29),
        0 <= i < j < (head + mid + tail).len(),
    ensures
        in_order((head + mid + tail)[i], (head + mid + tail)[j]),
{
    let all = head + mid + tail;
    let a = head.len() as int;
    let c = a + mid.len();
    assert(all[i] == if i < a { head[i] } else if i < c { mid[i - a] } else { tail[i - c] });
    assert(all[j] == if j < a { head[j] } else if j < c { mid[j - a] } else { tail[j - c] });
}

/// The elements of a block's syntax come in one order, whatever the block.
pub proof fn law_elements_come_in_order(f: BlockSettings, b: CodedBlock, stack: Seq<CandidateMV>, i: int, j: int)
    requires
        0 <= i < j < post_cdef_steps(f, b, stack).len(),
    ensures
        in_order(post_cdef_steps(f, b, stack)[i], post_cdef_steps(f, b, stack)[j]),
{
    let s1 = context_steps(b);
    let s2 = delta_steps(f, b);
    let s3 = mode_steps(f, b, stack);
    let s4: Steps = if b.luma_mode.inter() { seq![] } else { intra_steps(f, b) };
    let s5 = tx_size_steps(f, b);
    let s6 = residual_steps(f, b);
    lemma_placed_contexts(b);
    lemma_placed_deltas(f, b);
    lemma_placed_modes(f, b, stack);
    lemma_placed_intra(f, b);
    lemma_placed_tx_size(f, b);
    lemma_placed_residual(f, b);
    lemma_placed_add(s1, s2, 0, 6, 8);
    lemma_placed_add(s1 + s2, s3, 0, 8, 15);
    lemma_placed_add(s5, s6, 21, 24, 29);
    reveal(post_cdef_steps);
    assert(post_cdef_steps(f, b, stack) =~= s1 + s2 + s3 + s4 + (s5 + s6));
    lemma_order(s1 + s2 + s3, s4, s5 + s6, i, j);
}

proof fn lemma_in_when(c: bool, s: BlockStep, x: BlockStep)
    ensures
        (when(c, s)).contains(x) <==> c && x == s,
{
    if c {
        assert(seq![s][0] == s);
    }
}

proof fn lemma_in_sum(s: Steps, t: Steps, x: BlockStep)
    ensures
        (s + t).contains(x) <==> s.contains(x) || t.contains(x),
{
    if s.contains(x) {
        let i = choose|i: int| 0 <= i < s.len() && s[i] == x;
        assert((s + t)[i] == x);
    }
    if t.contains(x) {
        let i = choose|i: int| 0 <= i < t.len() && t[i] == x;
        assert((s + t)[s.len() + i] == x);
    }
    if (s + t).contains(x) {
        let i = choose|i: int| 0 <= i < (s + t).len() && (s + t)[i] == x;
        if i < s.len() {
            assert(s[i] == x);
        } else {
            assert(t[i - s.len()] == x);
        }
    }
}

/// A step is due: the settings and the block ask for it.
pub open spec fn due(f: BlockSettings, b: CodedBlock, s: BlockStep) -> bool {
    let m = b.luma_mode;
    let intra = !m.inter();
    let w = b.bsize.w();
    let h = b.bsize.h();
    let large = w >= 8 && h >= 8;
    let chroma = chroma_at(b.bo, b.bsize, f.xdec as int, f.ydec as int, f.chroma_sampling);
    let sb = if f.use_128x128_superblock { 128int } else { 64 };
    match s {
        BlockStep::ResetSkipContext => b.skip && !b.counts_only,
        BlockStep::SetBlockSize | BlockStep::SetMode | BlockStep::SetTxSize | BlockStep::SetMotionVectors => !b.counts_only,
        BlockStep::SetRefFrames | BlockStep::ClearCodeDeltas => true,
        BlockStep::WriteBlockDeblockDeltas { multi, planes } => {
            &&& f.code_deltas && f.block_deltas_enabled
            &&& !(b.skip && !(w <= sb && h <= sb && w * h < sb * sb))
            &&& multi == f.block_delta_multi
            &&& planes == if f.chroma_sampling == ChromaSampling::Cs400 { 1int } else { 3 }
        },
        BlockStep::WriteIsInter { is_inter } => f.has_inter && is_inter == m.inter(),
        BlockStep::FillNeighboursRefCounts | BlockStep::WriteRefFrames => f.has_inter && m.inter(),
        BlockStep::WriteCompoundMode { mode } => f.has_inter && m.compound() && mode == m,
        BlockStep::WriteInterMode { mode } => f.has_inter && m.inter() && !m.compound() && mode == m,
        BlockStep::WriteIntraMode { mode } => f.has_inter && intra && mode == m,
        BlockStep::WriteIntraModeKf { mode } => !f.has_inter && mode == m,
        BlockStep::WriteAngleDelta { delta, mode } => {
            &&& intra && large
            &&& m.directional() && delta == b.angle_delta_y && mode == m || chroma && b.chroma_mode.directional() && delta == b.angle_delta_uv && mode == b.chroma_mode
        },
        BlockStep::WriteIntraUvMode => intra && chroma,
        BlockStep::WriteCflAlphas => intra && chroma && b.chroma_mode == PredictionMode::UV_CFL_PRED,
        BlockStep::WriteUsePaletteMode => intra && f.allow_screen_content_tools > 0 && large && w <= 64 && h <= 64,
        BlockStep::WriteUseFilterIntra => intra && f.enable_filter_intra && m == PredictionMode::DC_PRED && w <= 32 && h <= 32,
        BlockStep::WriteTxSizeIntra => intra && f.tx_mode_select && w * h > 16,
        BlockStep::WriteTxSizeInter { max_tx_size, split } => {
            &&& !intra && f.tx_mode_select && w * h > 16 && !b.skip
            &&& max_tx_size.w() == if w > 64 { 64 } else { w }
            &&& max_tx_size.h() == if h > 64 { 64 } else { h }
            &&& split == (f.enable_inter_txfm_split && b.tx_size.w() <= w && b.tx_size.h() <= h && b.tx_size.w() * b.tx_size.h() < w * h)
        },
        BlockStep::UpdateTxSizeContext { skip } => {
            &&& f.tx_mode_select && !b.counts_only
            &&& intra || b.skip || w * h == 16
            &&& skip == (!intra && b.skip)
        },
        BlockStep::CountStats { pixels } => b.keep_stats && pixels == b.tx_size.w() * b.tx_size.h(),
        BlockStep::RecordBlockInfo => f.enable_intra_edge_filter && !b.counts_only,
        BlockStep::MotionCompensate | BlockStep::WriteTxTree => !intra,
        BlockStep::WriteTxBlocks => intra,
        _ => false,
    }
}

/// Every element that is due is there, and none that is not; the vectors and candidate
/// places of an inter block apart, which are read back on their own.
pub proof fn law_due_elements_are_there(f: BlockSettings, b: CodedBlock, stack: Seq<CandidateMV>, x: BlockStep)
    requires
        !(x is WriteMv),
        !(x is WriteDrlMode),
    ensures
        post_cdef_steps(f, b, stack).contains(x) <==> due(f, b, x),
{
    reveal(post_cdef_steps);
    let s1 = context_steps(b);
    let s2 = delta_steps(f, b);
    let s3 = mode_steps(f, b, stack);
    let s4: Steps = if b.luma_mode.inter() { seq![] } else { intra_steps(f, b) };
    let s5 = tx_size_steps(f, b);
    let s6 = residual_steps(f, b);
    lemma_in_sum(s1 + s2 + s3 + s4 + s5, s6, x);
    lemma_in_sum(s1 + s2 + s3 + s4, s5, x);
    lemma_in_sum(s1 + s2 + s3, s4, x);
    lemma_in_sum(s1 + s2, s3, x);
    lemma_in_sum(s1, s2, x);
    lemma_due_contexts(f, b, x);
    lemma_due_modes(f, b, stack, x);
    lemma_due_intra(f, b, x);
    lemma_due_tx_size(f, b, x);
    lemma_due_residual(f, b, x);
}

proof fn lemma_due_contexts(f: BlockSettings, b: CodedBlock, x: BlockStep)
    ensures
        context_steps(b).contains(x) <==> due(f, b, x) && rank(x) <= 5,
        delta_steps(f, b).contains(x) <==> due(f, b, x) && 6 <= rank(x) <= 7,
{
    let c = !b.counts_only;
    let w1 = when(b.skip && c, BlockStep::ResetSkipContext);
    let w2 = when(c, BlockStep::SetBlockSize);
    let w3 = when(c, BlockStep::SetMode);
    let w4 = when(c, BlockStep::SetTxSize);
    let w5 = when(c, BlockStep::SetMotionVectors);
    lemma_in_sum(w1 + w2 + w3 + w4 + w5, seq![BlockStep::SetRefFrames], x);
    lemma_in_sum(w1 + w2 + w3 + w4, w5, x);
    lemma_in_sum(w1 + w2 + w3, w4, x);
    lemma_in_sum(w1 + w2, w3, x);
    lemma_in_sum(w1, w2, x);
    lemma_in_when(b.skip && c, BlockStep::ResetSkipContext, x);
    lemma_in_when(c, BlockStep::SetBlockSize, x);
    lemma_in_when(c, BlockStep::SetMode, x);
    lemma_in_when(c, BlockStep::SetTxSize, x);
    lemma_in_when(c, BlockStep::SetMotionVectors, x);
    lemma_in_when(true, BlockStep::SetRefFrames, x);
    let sb = if f.use_128x128_superblock { BlockSize::BLOCK_128X128 } else { BlockSize::BLOCK_64X64 };
    let d = BlockStep::WriteBlockDeblockDeltas { multi: f.block_delta_multi, planes: if f.chroma_sampling == ChromaSampling::Cs400 { 1 } else { 3 } };
    let dc = f.code_deltas && f.block_deltas_enabled && (sb.exceeds(b.bsize) || !b.skip);
    lemma_in_sum(when(dc, d), seq![BlockStep::ClearCodeDeltas], x);
    lemma_in_when(dc, d, x);
    lemma_in_when(true, BlockStep::ClearCodeDeltas, x);
    lemma_smaller(b.bsize, sb);
}

/// A square exceeds a size if it holds it and is larger.
proof fn lemma_smaller(b: BlockSize, sb: BlockSize)
    requires
        sb == BlockSize::BLOCK_128X128 || sb == BlockSize::BLOCK_64X64,
    ensures
        sb.exceeds(b) <==> b.w() <= sb.w() && b.h() <= sb.h() && b.w() * b.h() < sb.w() * sb.h(),
{
    let (w, h, s) = (b.w(), b.h(), sb.w());
    crate::partition::law_blocks_have_their_names(b);
    if w <= s && h <= s {
        assert(w < s || h < s <==> w * h < s * s) by (nonlinear_arith)
            requires 0 < w <= s, 0 < h <= s;
    }
}

proof fn lemma_due_modes(f: BlockSettings, b: CodedBlock, stack: Seq<CandidateMV>, x: BlockStep)
    requires
        !(x is WriteMv),
        !(x is WriteDrlMode),
    ensures
        mode_steps(f, b, stack).contains(x) <==> due(f, b, x) && 8 <= rank(x) <= 14,
{
    let m = b.luma_mode;
    if f.has_inter {
        let head = BlockStep::WriteIsInter { is_inter: m.inter() };
        let rest: Steps = if m.inter() { inter_steps(f, b, stack) } else { seq![BlockStep::WriteIntraMode { mode: m }] };
        lemma_in_sum(seq![head], rest, x);
        lemma_in_when(true, head, x);
        if m.inter() {
            let i1 = seq![BlockStep::FillNeighboursRefCounts, BlockStep::WriteRefFrames];
            let i2: Steps = if m.compound() { seq![BlockStep::WriteCompoundMode { mode: m }] } else { seq![BlockStep::WriteInterMode { mode: m }] };
            let i3 = new_drl_steps(m, stack);
            let i4 = mv_steps(f, b, stack);
            let i5 = near_drl_steps(m, stack);
            lemma_in_sum(i1 + i2 + i3 + i4, i5, x);
            lemma_in_sum(i1 + i2 + i3, i4, x);
            lemma_in_sum(i1 + i2, i3, x);
            lemma_in_sum(i1, i2, x);
            assert(i1[0] == BlockStep::FillNeighboursRefCounts && i1[1] == BlockStep::WriteRefFrames);
            lemma_in_when(true, BlockStep::WriteCompoundMode { mode: m }, x);
            lemma_in_when(true, BlockStep::WriteInterMode { mode: m }, x);
            assert(forall|i: int| 0 <= i < i3.len() ==> (#[trigger] i3[i]) is WriteDrlMode);
            assert(forall|i: int| 0 <= i < i4.len() ==> (#[trigger] i4[i]) is WriteMv);
            assert(forall|i: int| 0 <= i < i5.len() ==> (#[trigger] i5[i]) is WriteDrlMode);
            crate::predict::law_modes_are_what_they_name(m);
        } else {
            lemma_in_when(true, BlockStep::WriteIntraMode { mode: m }, x);
        }
    } else {
        lemma_in_when(true, BlockStep::WriteIntraModeKf { mode: m }, x);
    }
}

proof fn lemma_due_intra(f: BlockSettings, b: CodedBlock, x: BlockStep)
    requires
        !(x is WriteMv),
        !(x is WriteDrlMode),
    ensures
        (if b.luma_mode.inter() { seq![] } else { intra_steps(f, b) }).contains(x) <==> due(f, b, x) && 15 <= rank(x) <= 20,
{
    if !b.luma_mode.inter() {
        let chroma = chroma_at(b.bo, b.bsize, f.xdec as int, f.ydec as int, f.chroma_sampling);
        let c1 = b.luma_mode.directional() && at_least_8x8(b.bsize);
        let w1 = BlockStep::WriteAngleDelta { delta: b.angle_delta_y, mode: b.luma_mode };
        let c3 = chroma && b.chroma_mode == PredictionMode::UV_CFL_PRED;
        let c4 = chroma && b.chroma_mode.directional() && at_least_8x8(b.bsize);
        let w4 = BlockStep::WriteAngleDelta { delta: b.angle_delta_uv, mode: b.chroma_mode };
        let c5 = f.allow_screen_content_tools > 0 && at_least_8x8(b.bsize) && b.bsize.w() <= 64 && b.bsize.h() <= 64;
        let c6 = f.enable_filter_intra && b.luma_mode == PredictionMode::DC_PRED && b.bsize.w() <= 32 && b.bsize.h() <= 32;
        let s1 = when(c1, w1);
        let s2 = when(chroma, BlockStep::WriteIntraUvMode);
        let s3 = when(c3, BlockStep::WriteCflAlphas);
        let s4 = when(c4, w4);
        let s5 = when(c5, BlockStep::WriteUsePaletteMode);
        let s6 = when(c6, BlockStep::WriteUseFilterIntra);
        lemma_in_sum(s1 + s2 + s3 + s4 + s5, s6, x);
        lemma_in_sum(s1 + s2 + s3 + s4, s5, x);
        lemma_in_sum(s1 + s2 + s3, s4, x);
        lemma_in_sum(s1 + s2, s3, x);
        lemma_in_sum(s1, s2, x);
        lemma_in_when(c1, w1, x);
        lemma_in_when(chroma, BlockStep::WriteIntraUvMode, x);
        lemma_in_when(c3, BlockStep::WriteCflAlphas, x);
        lemma_in_when(c4, w4, x);
        lemma_in_when(c5, BlockStep::WriteUsePaletteMode, x);
        lemma_in_when(c6, BlockStep::WriteUseFilterIntra, x);
    }
}

/// Only the smallest block has sixteen samples, and a transform that a block holds is
/// smaller than it if it has fewer samples.
proof fn lemma_areas(b: BlockSize, t: TxSize)
    ensures
        b.w() * b.h() >= 16,
        b.w() * b.h() == 16 <==> b == BlockSize::BLOCK_4X4,
        t.w() <= b.w() && t.h() <= b.h() ==> (t.w() * t.h() < b.w() * b.h() <==> t.w() < b.w() || t.h() < b.h()),
{
    let (w, h, u, v) = (b.w(), b.h(), t.w(), t.h());
    crate::partition::law_blocks_have_their_names(b);
    crate::transform::law_transforms_have_their_names(t);
    assert(w * h >= 16 && (w * h == 16 <==> w == 4 && h == 4)) by (nonlinear_arith)
        requires w >= 4, h >= 4;
    if w == 4 && h == 4 {
        crate::partition::lemma_block_size_by_log2(b, BlockSize::BLOCK_4X4);
    }
    if u <= w && v <= h {
        assert(u * v < w * h <==> u < w || v < h) by (nonlinear_arith)
            requires 0 < u <= w, 0 < v <= h;
    }
}

proof fn lemma_due_tx_size(f: BlockSettings, b: CodedBlock, x: BlockStep)
    ensures
        tx_size_steps(f, b).contains(x) <==> due(f, b, x) && 21 <= rank(x) <= 23,
{
    let inter = b.luma_mode.inter();
    lemma_areas(b.bsize, b.tx_size);
    let u = BlockStep::UpdateTxSizeContext { skip: false };
    let v = BlockStep::UpdateTxSizeContext { skip: inter && b.skip };
    let split = f.enable_inter_txfm_split && (b.tx_size.wl() <= b.bsize.wl() && b.tx_size.hl() <= b.bsize.hl() && (b.tx_size.wl() < b.bsize.wl() || b.tx_size.hl()
        < b.bsize.hl()));
    let w = BlockStep::WriteTxSizeInter { max_tx_size: largest_tx(b.bsize), split };
    lemma_in_when(!b.counts_only, u, x);
    lemma_in_when(!b.counts_only, v, x);
    lemma_in_when(true, BlockStep::WriteTxSizeIntra, x);
    lemma_in_when(true, w, x);
    lemma_in_sum(seq![BlockStep::WriteTxSizeIntra], when(!b.counts_only, u), x);
    if let BlockStep::WriteTxSizeInter { max_tx_size, .. } = x {
        if max_tx_size.wl() == largest_tx(b.bsize).wl() && max_tx_size.hl() == largest_tx(b.bsize).hl() {
            crate::transform::lemma_tx_size_by_log2(max_tx_size, largest_tx(b.bsize));
        }
    }
    assert(seq![w][0] == w && seq![BlockStep::WriteTxSizeIntra][0] == BlockStep::WriteTxSizeIntra);
}

proof fn lemma_due_residual(f: BlockSettings, b: CodedBlock, x: BlockStep)
    ensures
        residual_steps(f, b).contains(x) <==> due(f, b, x) && rank(x) >= 24,
{
    let n = b.tx_size.w() * b.tx_size.h();
    assert(16 <= n <= 4096) by (nonlinear_arith)
        requires 4 <= b.tx_size.w() <= 64, 4 <= b.tx_size.h() <= 64, n == b.tx_size.w() * b.tx_size.h();
    let c = BlockStep::CountStats { pixels: n as usize };
    let r = f.enable_intra_edge_filter && !b.counts_only;
    let tail: Steps = if b.luma_mode.inter() { seq![BlockStep::MotionCompensate, BlockStep::WriteTxTree] } else { seq![BlockStep::WriteTxBlocks] };
    lemma_in_sum(when(b.keep_stats, c) + when(r, BlockStep::RecordBlockInfo), tail, x);
    lemma_in_sum(when(b.keep_stats, c), when(r, BlockStep::RecordBlockInfo), x);
    lemma_in_when(b.keep_stats, c, x);
    lemma_in_when(r, BlockStep::RecordBlockInfo, x);
    if b.luma_mode.inter() {
        assert(tail[0] == BlockStep::MotionCompensate && tail[1] == BlockStep::WriteTxTree);
    } else {
        assert(tail[0] == BlockStep::WriteTxBlocks);
    }
}

/// Before the filter index a block writes its skip flag once, and its segment once where
/// the map is updated: before the skip flag, and then always, or after it, by the flag.
pub proof fn law_segments_and_skip_flags(seg: SegmentationSyntax, skip: bool, counts_only: bool)
    ensures
        ({
            let s = pre_cdef_steps(seg, skip, counts_only);
            let mapped = seg.enabled && seg.update_map;
            let n = if counts_only { 0int } else { 1 };
            let at = n + if mapped && seg.preskip { 1int } else { 0 };
            &&& s.len() == n + 1 + if mapped { 1int } else { 0 }
            &&& !counts_only ==> s[0] == BlockStep::SetSkip { skip }
            &&& s[at] == BlockStep::WriteSkip { skip }
            &&& mapped && seg.preskip ==> s[at - 1] == BlockStep::WriteSegmentation { skip: false }
            &&& mapped && !seg.preskip ==> s[at + 1] == BlockStep::WriteSegmentation { skip }
        }),
{
}

/// A block's mode says where its vectors come from: a reader that takes the candidate the
/// mode names, for each reference that is not coded anew, has the block's vectors, and
/// global motion stays as it is.
pub proof fn law_remapped_modes_give_the_vectors(mode: PredictionMode, compound: bool, mvs: Seq<MotionVector>, stack: Seq<CandidateMV>)
    requires
        mode.inter(),
        mvs.len() == 2,
        compound ==> stack.len() >= 2,
    ensures
        ({
            let r = remapped_mode(mode, compound, mvs, stack);
            let n = stack.len();
            let zero = MotionVector { row: 0, col: 0 };
            &&& r.inter()
            &&& compound && (mode.compound() || mode != PredictionMode::GLOBAL_GLOBALMV) ==> r.compound()
            &&& mode == PredictionMode::GLOBAL_GLOBALMV && compound ==> r == mode
            &&& mode == PredictionMode::GLOBALMV && !compound ==> r == mode
            &&& r == PredictionMode::NEAREST_NEARESTMV ==> mvs[0] == stack[0].this_mv && mvs[1] == stack[0].comp_mv
            &&& r == PredictionMode::NEAR_NEAR0MV ==> mvs[0] == stack[1].this_mv && mvs[1] == stack[1].comp_mv
            &&& r == PredictionMode::NEAR_NEAR1MV ==> n > 2 && mvs[0] == stack[2].this_mv && mvs[1] == stack[2].comp_mv
            &&& r == PredictionMode::NEAR_NEAR2MV ==> n > 3 && mvs[0] == stack[3].this_mv && mvs[1] == stack[3].comp_mv
            &&& r == PredictionMode::NEAREST_NEWMV ==> mvs[0] == stack[0].this_mv
            &&& r == PredictionMode::NEW_NEARESTMV ==> mvs[1] == stack[0].comp_mv
            &&& r == PredictionMode::GLOBAL_GLOBALMV && mode != r ==> mvs[0] == zero && mvs[1] == zero
            &&& r == PredictionMode::NEARESTMV ==> mvs[0] == if n > 0 { stack[0].this_mv } else { zero }
            &&& r == PredictionMode::NEAR0MV ==> mvs[0] == if n > 1 { stack[1].this_mv } else { zero }
            &&& r == PredictionMode::NEAR1MV ==> n > 2 && mvs[0] == stack[2].this_mv
            &&& r == PredictionMode::NEAR2MV ==> n > 3 && mvs[0] == stack[3].this_mv
            &&& r == PredictionMode::GLOBALMV && mode != r ==> mvs[0] == zero
            // A vector is coded anew only if no candidate has it.
            &&& r == PredictionMode::NEWMV ==> forall|i: int| 0 <= i < n && i < 4 ==> mvs[0] != (#[trigger] stack[i]).this_mv
            &&& r == PredictionMode::NEW_NEWMV ==> mvs[0] != stack[0].this_mv && mvs[1] != stack[0].comp_mv
        }),
{
}

/// Which candidate a mode names, where it names one for every vector.
pub open spec fn named_candidate(mode: PredictionMode) -> Option<int> {
    match mode {
        PredictionMode::NEARESTMV | PredictionMode::NEAREST_NEARESTMV => Some(0),
        PredictionMode::NEAR0MV | PredictionMode::NEAR_NEAR0MV => Some(1),
        PredictionMode::NEAR1MV | PredictionMode::NEAR_NEAR1MV => Some(2),
        PredictionMode::NEAR2MV | PredictionMode::NEAR_NEAR2MV => Some(3),
        _ => None,
    }
}

/// Of several candidates that have a single vector, its mode names none before any of
/// them. Only a zero vector that no candidate has is named without one.
pub proof fn law_single_vectors_take_the_last_candidate(mode: PredictionMode, mvs: Seq<MotionVector>, stack: Seq<CandidateMV>, i: int)
    requires
        mode.inter(),
        mode != PredictionMode::GLOBALMV,
        mvs.len() == 2,
        0 <= i < 4,
    ensures
        ({
            let r = remapped_mode(mode, false, mvs, stack);
            let zero = mvs[0] == MotionVector { row: 0, col: 0 };
            let none = forall|k: int| 0 <= k < stack.len() && k < 4 ==> (#[trigger] stack[k]).this_mv != mvs[0];
            &&& i < stack.len() && stack[i].this_mv == mvs[0] ==> (named_candidate(r) matches Some(k) && i <= k < stack.len())
            &&& none && !zero ==> r == PredictionMode::NEWMV
            &&& none && zero && stack.len() < 2 ==> named_candidate(r) == Some(stack.len() as int)
            &&& none && zero && stack.len() >= 2 ==> r == PredictionMode::GLOBALMV
        }),
{
}

/// Of several candidates that have both vectors, the mode names none after any of them,
/// unless the vectors are zero and not the first candidate's, which is the global motion. A
/// vector that the first candidate has is coded anew only beside such a one.
pub proof fn law_two_vectors_take_the_first_candidate(mode: PredictionMode, mvs: Seq<MotionVector>, stack: Seq<CandidateMV>, i: int)
    requires
        mode.inter(),
        mode != PredictionMode::GLOBAL_GLOBALMV,
        mvs.len() == 2,
        stack.len() >= 2,
        0 <= i < 4,
    ensures
        ({
            let r = remapped_mode(mode, true, mvs, stack);
            let still = MotionVector { row: 0, col: 0 };
            let zero = mvs[0] == still && mvs[1] == still;
            let here = i < stack.len() && stack[i].this_mv == mvs[0] && stack[i].comp_mv == mvs[1];
            &&& here && (i == 0 || !zero) ==> (named_candidate(r) matches Some(k) && k <= i)
            &&& zero && !(stack[0].this_mv == still && stack[0].comp_mv == still) ==> r == PredictionMode::GLOBAL_GLOBALMV
            &&& r == PredictionMode::GLOBAL_GLOBALMV ==> zero
            &&& r == PredictionMode::NEW_NEARESTMV ==> mvs[0] != stack[0].this_mv
            &&& r == PredictionMode::NEAREST_NEWMV ==> mvs[1] != stack[0].comp_mv
            &&& named_candidate(r) is None && !zero ==> !here
        }),
{
}

/// Counts of nothing have room for any number of samples of any block.
pub proof fn law_empty_counts_have_room(s: EncoderStats, b: CodedBlock, n: int)
    requires
        s.is_empty(),
        0 <= n <= usize::MAX,
    ensures
        s.has_room(b, n),
        !s.has_room(b, usize::MAX + 1),
{
}

} // verus!
