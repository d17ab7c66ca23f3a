//! Transform blocks: how a block is tiled by them, what is done with each, and
//! how far their coefficients are from the source.

use vstd::arithmetic::power2::*;
use vstd::prelude::*;

use crate::context::transform_unit::{chroma_at, has_chroma, tx_type_for_mode, uv_intra_mode_to_tx_type_context};
use crate::encoder::block::CandidateMV;
use crate::encoder::motion::plane_pos;
use crate::mc::MotionVector;
use crate::partition::{BlockSize, ChromaSampling, TileBlockOffset};
use crate::plane::{Pixel, PlaneRegion};
use crate::predict::{param_of, AngleDelta, IntraParam, PredictionMode};
use crate::transform::{TxSize, TxType};
use crate::util::{iabs, imax, imin};

verus! {

/// What a rate-distortion trial measures.
#[derive(Clone, Copy, Debug, PartialEq, Eq, Structural)]
pub enum RDOType {
    /// Distortion of samples, and the exact rate.
    PixelDistRealRate,
    /// Distortion of coefficients, and the exact rate.
    TxDistRealRate,
    /// Distortion of coefficients, and a rate estimated from it.
    TxDistEstRate,
}

impl RDOType {
    /// The distortion is that of the coefficients.
    pub fn needs_tx_dist(self) -> (r: bool)
        ensures
            r == (self != RDOType::PixelDistRealRate),
    {
        self != RDOType::PixelDistRealRate
    }

    /// The coefficients are coded to know their rate.
    pub fn needs_coeff_rate(self) -> (r: bool)
        ensures
            r == (self != RDOType::TxDistEstRate),
    {
        self != RDOType::TxDistEstRate
    }
}

/// The differences between two windows of the same size, row by row.
pub fn diff<T: Pixel>(src1: &PlaneRegion<'_, T>, src2: &PlaneRegion<'_, T>) -> (r: Vec<i16>)
    requires
        src1.wf(),
        src2.wf(),
        src1.width == src2.width,
        src1.height == src2.height,
        src1.plane.samples_at_most(32767),
        src2.plane.samples_at_most(32767),
    ensures
        r.len() == src1.height * src1.width,
        forall|x: int, y: int| 0 <= x < src1.width && 0 <= y < src1.height ==> #[trigger] r@[y * src1.width + x] == src1.sample(x, y) - src2.sample(x, y),
{
    let w: usize = src1.width;
    let h: usize = src1.height;
    let mut out: Vec<i16> = Vec::new();
    let mut y: usize = 0;
    assert(0 * w == 0) by (nonlinear_arith);
    while y < h
        invariant
            y <= h,
            w == src1.width,
            h == src1.height,
            src1.wf(),
            src2.wf(),
            src1.width == src2.width,
            src1.height == src2.height,
            src1.plane.samples_at_most(32767),
            src2.plane.samples_at_most(32767),
            out.len() == y * w,
            forall|i: int, j: int| 0 <= i < w && 0 <= j < y ==> #[trigger] out@[j * w + i] == src1.sample(i, j) - src2.sample(i, j),
        decreases h - y,
    {
        let mut x: usize = 0;
        while x < w
            invariant
                x <= w,
                y < h,
                w == src1.width,
                h == src1.height,
                src1.wf(),
                src2.wf(),
                src1.width == src2.width,
                src1.height == src2.height,
                src1.plane.samples_at_most(32767),
                src2.plane.samples_at_most(32767),
                out.len() == y * w + x,
                forall|i: int, j: int| 0 <= i < w && 0 <= j && (j < y || j == y && i < x) ==> #[trigger] out@[j * w + i] == src1.sample(i, j) - src2.sample(i, j),
            decreases w - x,
        {
            proof {
                crate::plane::lemma_index_in_data(src1.plane.cfg, src1.x + x, src1.y + y);
                crate::plane::lemma_index_in_data(src2.plane.cfg, src2.x + x, src2.y + y);
            }
            let a: i32 = src1.at(x, y).to_i32();
            let b: i32 = src2.at(x, y).to_i32();
            let ghost before = out@;
            out.push((a - b) as i16);
            proof {
                assert forall|i: int, j: int| 0 <= i < w && 0 <= j && (j < y || j == y && i < x + 1) implies #[trigger] out@[j * w + i] == src1.sample(i, j)
                    - src2.sample(i, j) by {
                    if j < y {
                        assert(j * w + i < y * w) by (nonlinear_arith)
                            requires 0 <= i < w, 0 <= j < y;
                        assert(0 <= j * w + i) by (nonlinear_arith)
                            requires 0 <= i, 0 <= j, 0 <= w;
                        assert(out@[j * w + i] == before[j * w + i]);
                    } else if i < x {
                        assert(0 <= j * w + i) by (nonlinear_arith)
                            requires 0 <= i, 0 <= j, 0 <= w;
                        assert(out@[j * w + i] == before[j * w + i]);
                    }
                }
            }
            x = x + 1;
        }
        assert(y * w + w == (y + 1) * w) by (nonlinear_arith);
        y = y + 1;
    }
    out
}

/// How often the coefficients of a large transform are halved.
pub open spec fn log_tx_scale(tx_size: TxSize) -> int {
    let area = tx_size.w() * tx_size.h();
    (if area > 256 { 1int } else { 0 }) + (if area > 1024 { 1int } else { 0 })
}

/// How often the coefficients of a large transform are halved.
pub fn get_log_tx_scale(tx_size: TxSize) -> (r: usize)
    ensures
        r == log_tx_scale(tx_size),
        r <= 2,
{
    let area: usize = tx_size.area();
    if area > 1024 {
        2
    } else if area > 256 {
        1
    } else {
        0
    }
}

/// How far a coefficient is from what was kept of it; those past the coded area
/// were dropped.
pub open spec fn error_at(coeffs: Seq<i32>, rcoeffs: Seq<i32>, i: int) -> int {
    coeffs[i] - if i < rcoeffs.len() { rcoeffs[i] as int } else { 0 }
}

/// The squared error of the first `n` coefficients.
pub open spec fn squared_error(coeffs: Seq<i32>, rcoeffs: Seq<i32>, n: int) -> int
    decreases n,
{
    if n <= 0 {
        0
    } else {
        let e = error_at(coeffs, rcoeffs, n - 1);
        squared_error(coeffs, rcoeffs, n - 1) + e * e
    }
}

/// The distortion of a transform block from its coefficients: the squared error,
/// scaled to that of samples and rounded.
pub open spec fn tx_distortion(coeffs: Seq<i32>, rcoeffs: Seq<i32>, tx_size: TxSize) -> int {
    let bits = (2 * (3 - log_tx_scale(tx_size))) as nat;
    (squared_error(coeffs, rcoeffs, coeffs.len() as int) + pow2((bits - 1) as nat)) / pow2(bits) as int
}

/// The distortion of a transform block from its coefficients.
pub fn raw_tx_distortion(coeffs: &[i32], rcoeffs: &[i32], tx_size: TxSize) -> (r: u64)
    requires
        rcoeffs.len() <= coeffs.len() <= 4096,
        forall|i: int| 0 <= i < coeffs.len() ==> iabs(#[trigger] error_at(coeffs@, rcoeffs@, i)) <= 46340,
    ensures
        r == tx_distortion(coeffs@, rcoeffs@, tx_size),
{
    let mut raw: u64 = 0;
    let mut i: usize = 0;
    while i < coeffs.len()
        invariant
            i <= coeffs.len() <= 4096,
            rcoeffs.len() <= coeffs.len(),
            forall|i: int| 0 <= i < coeffs.len() ==> iabs(#[trigger] error_at(coeffs@, rcoeffs@, i)) <= 46340,
            raw == squared_error(coeffs@, rcoeffs@, i as int),
            raw <= 2147395600 * i,
        decreases coeffs.len() - i,
    {
        assert(iabs(error_at(coeffs@, rcoeffs@, i as int)) <= 46340);
        let kept: i32 = if i < rcoeffs.len() { rcoeffs[i] } else { 0 };
        let c: i32 = coeffs[i] - kept;
        assert(0 <= c * c <= 46340 * 46340) by (nonlinear_arith)
            requires -46340 <= c <= 46340;
        raw = raw + (c * c) as u64;
        i = i + 1;
    }
    let scale: usize = get_log_tx_scale(tx_size);
    proof {
        lemma2_to64();
    }
    if scale == 0 {
        (raw + 32) / 64
    } else if scale == 1 {
        (raw + 8) / 16
    } else {
        (raw + 2) / 4
    }
}

/// The part of a block's side that lies inside a frame.
pub open spec fn visible_side(pos: int, side: int, frame: int) -> int {
    if pos + side <= frame {
        side
    } else if pos >= frame {
        0
    } else {
        frame - pos
    }
}

/// The part of a block that lies inside a frame, width then height.
pub fn clip_visible_bsize(frame_w: usize, frame_h: usize, bsize: BlockSize, x: usize, y: usize) -> (r: (usize, usize))
    requires
        x <= usize::MAX - 128,
        y <= usize::MAX - 128,
    ensures
        r.0 == visible_side(x as int, bsize.w(), frame_w as int),
        r.1 == visible_side(y as int, bsize.h(), frame_h as int),
{
    let w: usize = bsize.width();
    let h: usize = bsize.height();
    let vw: usize = if x + w <= frame_w {
        w
    } else if x >= frame_w {
        0
    } else {
        frame_w - x
    };
    let vh: usize = if y + h <= frame_h {
        h
    } else if y >= frame_h {
        0
    } else {
        frame_h - y
    };
    (vw, vh)
}

/// A transform block of a plane and what bears on how it is coded.
#[derive(Clone, Copy, Debug, PartialEq, Eq, Structural)]
pub struct TxBlock {
    pub tx_bo: TileBlockOffset,
    /// Size of the tile in units of four samples.
    pub mi_width: usize,
    pub mi_height: usize,
    /// The block's position in the frame, in units of four luma samples.
    pub frame_x: usize,
    pub frame_y: usize,
    /// Size of the frame in luma samples, and in units of four of them.
    pub width: usize,
    pub height: usize,
    pub w_in_b: usize,
    pub h_in_b: usize,
    pub xdec: usize,
    pub ydec: usize,
    /// The block that the transform block is part of.
    pub bsize: BlockSize,
    pub mode: PredictionMode,
    pub tx_size: TxSize,
    pub tx_type: TxType,
    pub skip: bool,
    pub enable_intra_edge_filter: bool,
    pub rdo_type: RDOType,
    pub need_recon_pixel: bool,
    pub use_tx_domain_distortion: bool,
    /// Coefficients are optimized in this superblock.
    pub trellis: bool,
    pub counts_only: bool,
}

/// A step of coding a transform block.
#[derive(Clone, Copy, Debug, PartialEq, Eq, Structural)]
pub enum TxBlockStep {
    /// Find the strength of the edge filter from the neighbours.
    EdgeFilter,
    PredictIntra,
    /// The residual is the difference of source and prediction.
    Diff,
    /// The residual is zero: nothing of the block is visible.
    ZeroResidual,
    ForwardTransform,
    Quantize,
    /// Write the coefficients of a block cut off at the frame's padded edge.
    WriteCoeffs { width: usize, height: usize },
    Dequantize,
    InverseTransformAdd,
    /// Measure the distortion of the coefficients.
    TxDistortion,
    /// Account a rate estimated from the distortion.
    EstimateRate,
}

/// One step if the condition holds.
pub open spec fn tx_when(c: bool, s: TxBlockStep) -> Seq<TxBlockStep> {
    if c { seq![s] } else { seq![] }
}

/// The type goes with the size: the largest transform has only the cosine type.
pub open spec fn type_fits(tx_size: TxSize, tx_type: TxType) -> bool {
    imin(tx_size.wl(), tx_size.hl()) <= 5 || tx_type == TxType::DCT_DCT
}

impl TxBlock {
    /// The transform is one of its size, and the block has a counterpart on the plane.
    pub open spec fn allowed(self) -> bool {
        type_fits(self.tx_size, self.tx_type) && self.bsize.subsamples(self.xdec as int, self.ydec as int)
    }

    /// The block lies inside the frame, and sizes stay in range.
    pub open spec fn wf(self) -> bool {
        &&& self.xdec <= 1
        &&& self.ydec <= 1
        &&& self.width <= 0x1000_0000
        &&& self.height <= 0x1000_0000
        &&& self.w_in_b <= 0x1000_0000
        &&& self.h_in_b <= 0x1000_0000
        &&& self.frame_x < self.w_in_b
        &&& self.frame_y < self.h_in_b
    }

    /// The block lies outside the tile.
    pub open spec fn outside(self) -> bool {
        self.tx_bo.x >= self.mi_width || self.tx_bo.y >= self.mi_height
    }

    /// Some sample of the block is visible.
    pub open spec fn is_visible(self) -> bool {
        &&& visible_side(scaled(self.frame_x * 4, self.xdec as int), self.tx_size.w(), scaled(self.width + self.xdec, self.xdec as int)) != 0
        &&& visible_side(scaled(self.frame_y * 4, self.ydec as int), self.tx_size.h(), scaled(self.height + self.ydec, self.ydec as int)) != 0
    }

    /// The steps up to the quantized coefficients: none outside the tile, and only
    /// the prediction of a skipped block.
    pub open spec fn start_steps(self) -> Seq<TxBlockStep> {
        let intra = !self.mode.inter();
        if self.outside() {
            seq![]
        } else {
            tx_when(self.mode.directional() && self.enable_intra_edge_filter, TxBlockStep::EdgeFilter) + tx_when(intra, TxBlockStep::PredictIntra) + if self.skip {
                seq![]
            } else {
                seq![
                    if self.is_visible() { TxBlockStep::Diff } else { TxBlockStep::ZeroResidual },
                    TxBlockStep::ForwardTransform,
                    TxBlockStep::Quantize,
                ]
            }
        }
    }

    /// The coefficients are coded: the samples are needed, or the rate is.
    pub open spec fn codes(self) -> bool {
        self.need_recon_pixel || self.rdo_type != RDOType::TxDistEstRate
    }

    /// The distortion of the coefficients is measured.
    pub open spec fn measured(self) -> bool {
        self.rdo_type != RDOType::PixelDistRealRate && self.is_visible()
    }

    /// The steps from the quantized coefficients on; `eob` is the number of them up
    /// to the last that is not zero.
    pub open spec fn finish_steps(self, eob: int) -> Seq<TxBlockStep> {
        let measured = self.measured();
        tx_when(
            self.codes(),
            TxBlockStep::WriteCoeffs {
                width: imin(scaled((self.w_in_b - self.frame_x) * 4, self.xdec as int), self.tx_size.w()) as usize,
                height: imin(scaled((self.h_in_b - self.frame_y) * 4, self.ydec as int), self.tx_size.h()) as usize,
            },
        ) + seq![TxBlockStep::Dequantize] + tx_when(
            eob != 0 && (!self.use_tx_domain_distortion || self.need_recon_pixel),
            TxBlockStep::InverseTransformAdd,
        ) + tx_when(measured, TxBlockStep::TxDistortion) + tx_when(measured && self.rdo_type == RDOType::TxDistEstRate, TxBlockStep::EstimateRate)
    }

    /// Whether some sample of the block is visible.
    fn visible(&self) -> (r: bool)
        requires
            self.wf(),
        ensures
            r == self.is_visible(),
    {
        let (w, h): (usize, usize) = clip_visible_bsize(
            halve(self.width + self.xdec, self.xdec),
            halve(self.height + self.ydec, self.ydec),
            self.tx_size.block_size(),
            halve(self.frame_x * 4, self.xdec),
            halve(self.frame_y * 4, self.ydec),
        );
        w != 0 && h != 0
    }

    /// Whether the coefficients are optimized before they are coded: only for good,
    /// and only where there are more than two.
    pub fn wants_trellis(&self, eob: u16) -> (r: bool)
        ensures
            r == (self.trellis && !self.counts_only && !self.skip && eob > 2),
    {
        self.trellis && !self.counts_only && !self.skip && eob > 2
    }

    /// The rate in eighths of a bit that is recorded beside the distortion of a trial,
    /// where rates are recorded: what the writer moved on since before the coefficients.
    pub fn observed_rate(&self, rateharvest: bool, tell_before: u32, tell_after: u32) -> (r: Option<u32>)
        requires
            !self.outside() && !self.skip ==> self.wf(),
        ensures
            r is Some <==> rateharvest && self.counts_only && !self.outside() && !self.skip && self.measured(),
            r matches Some(rate) ==> rate == imax(tell_after - tell_before, 0),
    {
        let coded: bool = !(self.tx_bo.x >= self.mi_width || self.tx_bo.y >= self.mi_height) && !self.skip;
        if rateharvest && self.counts_only && coded && self.rdo_type.needs_tx_dist() && self.visible() {
            Some(if tell_after > tell_before { tell_after - tell_before } else { 0 })
        } else {
            None
        }
    }

    /// The steps from the quantized coefficients on.
    pub fn finish(&self, eob: u16) -> (r: Vec<TxBlockStep>)
        requires
            self.wf(),
        ensures
            r@ == self.finish_steps(eob as int),
    {
        let mut out: Vec<TxBlockStep> = Vec::new();
        if self.need_recon_pixel || self.rdo_type.needs_coeff_rate() {
            let fw: usize = halve((self.w_in_b - self.frame_x) * 4, self.xdec);
            let fh: usize = halve((self.h_in_b - self.frame_y) * 4, self.ydec);
            let tw: usize = self.tx_size.width();
            let th: usize = self.tx_size.height();
            out.push(TxBlockStep::WriteCoeffs { width: if fw < tw { fw } else { tw }, height: if fh < th { fh } else { th } });
        }
        out.push(TxBlockStep::Dequantize);
        if eob != 0 && (!self.use_tx_domain_distortion || self.need_recon_pixel) {
            out.push(TxBlockStep::InverseTransformAdd);
        }
        if self.rdo_type.needs_tx_dist() && self.visible() {
            out.push(TxBlockStep::TxDistortion);
            if self.rdo_type == RDOType::TxDistEstRate {
                out.push(TxBlockStep::EstimateRate);
            }
        }
        assert(out@ =~= self.finish_steps(eob as int));
        out
    }
}

/// A coordinate on a subsampled plane.
pub open spec fn scaled(v: int, dec: int) -> int {
    if dec == 1 { v / 2 } else { v }
}

fn halve(v: usize, dec: usize) -> (r: usize)
    requires
        dec <= 1,
    ensures
        r == scaled(v as int, dec as int),
{
    if dec == 1 { v / 2 } else { v }
}

/// The steps of coding a transform block up to its quantized coefficients.
pub fn encode_tx_block(b: &TxBlock) -> (r: Vec<TxBlockStep>)
    requires
        !b.outside() ==> b.allowed(),
        !b.outside() && !b.skip ==> b.wf(),
    ensures
        r@ == b.start_steps(),
{
    let mut out: Vec<TxBlockStep> = Vec::new();
    if b.tx_bo.x >= b.mi_width || b.tx_bo.y >= b.mi_height {
        return out;
    }
    if b.mode.is_directional() && b.enable_intra_edge_filter {
        out.push(TxBlockStep::EdgeFilter);
    }
    if !b.mode.is_inter() {
        out.push(TxBlockStep::PredictIntra);
    }
    if !b.skip {
        if b.visible() {
            out.push(TxBlockStep::Diff);
        } else {
            out.push(TxBlockStep::ZeroResidual);
        }
        out.push(TxBlockStep::ForwardTransform);
        out.push(TxBlockStep::Quantize);
    }
    assert(out@ =~= b.start_steps());
    out
}

/// Whether a transform block has coefficients, and its distortion: neither outside the
/// tile nor where it is skipped. Where the coefficients are not coded the block counts
/// as one that has some, and where the distortion is not measured it is zero.
pub open spec fn block_result(b: TxBlock, written: bool, dist: u64) -> (bool, u64) {
    if b.outside() || b.skip {
        (false, 0)
    } else {
        (!b.codes() || written, if b.measured() { dist } else { 0 })
    }
}

/// Whether a transform block has coefficients, and its distortion. `written` is what
/// writing its coefficients gave, `dist` the distortion that was measured.
pub fn tx_block_result(b: &TxBlock, written: bool, dist: u64) -> (r: (bool, u64))
    requires
        !b.outside() && !b.skip ==> b.wf(),
    ensures
        r == if b.outside() || b.skip {
            (false, 0u64)
        } else {
            (!b.codes() || written, if b.measured() { dist } else { 0 })
        },
        r == block_result(*b, written, dist),
{
    if b.tx_bo.x >= b.mi_width || b.tx_bo.y >= b.mi_height || b.skip {
        return (false, 0);
    }
    let codes: bool = b.need_recon_pixel || b.rdo_type.needs_coeff_rate();
    let measured: bool = b.rdo_type.needs_tx_dist() && b.visible();
    (!codes || written, if measured { dist } else { 0 })
}

/// A transform block to code: its place in the block and in the tile, and its
/// samples in the plane.
#[derive(Clone, Copy, Debug, PartialEq, Eq, Structural)]
pub struct TxCall {
    pub plane: usize,
    pub bx: usize,
    pub by: usize,
    pub tx_bo: TileBlockOffset,
    pub x: usize,
    pub y: usize,
    pub mode: PredictionMode,
    pub tx_size: TxSize,
    pub tx_type: TxType,
}

/// Where the transform blocks of a block lie, and how they are coded.
#[derive(Clone, Copy, Debug, PartialEq, Eq, Structural)]
pub struct TxPlace {
    /// Size of the tile, and its corner in the frame, in units of four luma samples.
    pub mi_width: usize,
    pub mi_height: usize,
    pub tile_x: usize,
    pub tile_y: usize,
    /// Size of the frame in luma samples, and in units of four of them.
    pub width: usize,
    pub height: usize,
    pub w_in_b: usize,
    pub h_in_b: usize,
    /// How the chroma planes are subsampled.
    pub xdec: usize,
    pub ydec: usize,
    pub bsize: BlockSize,
    pub enable_intra_edge_filter: bool,
    pub rdo_type: RDOType,
    pub need_recon_pixel: bool,
    pub use_tx_domain_distortion: bool,
    pub trellis: bool,
    pub counts_only: bool,
}

impl TxCall {
    /// The transform block of a step.
    pub open spec fn block_at(self, at: TxPlace, skip: bool) -> TxBlock {
        TxBlock {
            tx_bo: self.tx_bo,
            mi_width: at.mi_width,
            mi_height: at.mi_height,
            frame_x: (at.tile_x + self.tx_bo.x) as usize,
            frame_y: (at.tile_y + self.tx_bo.y) as usize,
            width: at.width,
            height: at.height,
            w_in_b: at.w_in_b,
            h_in_b: at.h_in_b,
            xdec: if self.plane == 0 { 0 } else { at.xdec },
            ydec: if self.plane == 0 { 0 } else { at.ydec },
            bsize: at.bsize,
            mode: self.mode,
            tx_size: self.tx_size,
            tx_type: self.tx_type,
            skip,
            enable_intra_edge_filter: at.enable_intra_edge_filter,
            rdo_type: at.rdo_type,
            need_recon_pixel: at.need_recon_pixel,
            use_tx_domain_distortion: at.use_tx_domain_distortion,
            trellis: at.trellis,
            counts_only: at.counts_only,
        }
    }

    /// The parameter that the prediction of a step's transform block takes, from the
    /// angles of its block and the factors of the two chroma planes.
    pub fn intra_param(&self, angle: AngleDelta, alpha: [i16; 2]) -> (r: IntraParam)
        requires
            self.plane < 3,
        ensures
            r == param_of(self.plane as int, self.mode, angle, alpha@),
    {
        if self.plane == 0 || self.mode.is_inter() {
            IntraParam::AngleDelta(angle.y)
        } else if self.mode == PredictionMode::UV_CFL_PRED {
            IntraParam::Alpha(alpha[self.plane - 1])
        } else {
            IntraParam::AngleDelta(angle.uv)
        }
    }

    /// The transform block of a step: its place in the frame is that in the tile, from the
    /// tile's corner on, and luma is not subsampled.
    pub fn block(&self, at: &TxPlace, skip: bool) -> (r: TxBlock)
        requires
            at.tile_x + self.tx_bo.x <= usize::MAX,
            at.tile_y + self.tx_bo.y <= usize::MAX,
        ensures
            r == self.block_at(*at, skip),
    {
        TxBlock {
            tx_bo: self.tx_bo,
            mi_width: at.mi_width,
            mi_height: at.mi_height,
            frame_x: at.tile_x + self.tx_bo.x,
            frame_y: at.tile_y + self.tx_bo.y,
            width: at.width,
            height: at.height,
            w_in_b: at.w_in_b,
            h_in_b: at.h_in_b,
            xdec: if self.plane == 0 { 0 } else { at.xdec },
            ydec: if self.plane == 0 { 0 } else { at.ydec },
            bsize: at.bsize,
            mode: self.mode,
            tx_size: self.tx_size,
            tx_type: self.tx_type,
            skip,
            enable_intra_edge_filter: at.enable_intra_edge_filter,
            rdo_type: at.rdo_type,
            need_recon_pixel: at.need_recon_pixel,
            use_tx_domain_distortion: at.use_tx_domain_distortion,
            trellis: at.trellis,
            counts_only: at.counts_only,
        }
    }
}

/// A step of coding the residual of a block.
#[derive(Clone, Copy, Debug, PartialEq, Eq, Structural)]
pub enum ResidualStep {
    /// Set the quantizer up for a plane.
    UpdateQuantizer { plane: usize, tx_size: TxSize, is_intra: bool, dc_delta_q: i8, ac_delta_q: i8 },
    /// Take the luma results of an earlier trial.
    ReuseLuma,
    /// Keep the luma results for later trials.
    CacheLuma,
    /// Find the luma detail that chroma is predicted from.
    LumaAc,
    Encode(TxCall),
}

/// A block whose residual is coded.
#[derive(Clone, Copy, Debug)]
pub struct ResidualBlock {
    pub bo: TileBlockOffset,
    pub bsize: BlockSize,
    pub mi_width: usize,
    pub mi_height: usize,
    pub xdec: usize,
    pub ydec: usize,
    pub chroma_sampling: ChromaSampling,
    pub luma_mode: PredictionMode,
    pub chroma_mode: PredictionMode,
    pub tx_size: TxSize,
    pub tx_type: TxType,
    pub dc_delta_q: [i8; 3],
    pub ac_delta_q: [i8; 3],
    pub luma_only: bool,
}

/// The logarithms of a block's chroma transform: the largest on its plane, at most
/// 32 in either direction.
pub open spec fn uv_log2(bsize: BlockSize, xdec: int, ydec: int) -> (int, int) {
    (imin(imax(bsize.wl() - xdec, 2), 5), imin(imax(bsize.hl() - ydec, 2), 5))
}

/// The chroma transform of a block.
pub open spec fn uv_tx_size(bsize: BlockSize, xdec: int, ydec: int) -> TxSize {
    let l = uv_log2(bsize, xdec, ydec);
    TxSize::of_log2(l.0, l.1)
}

/// The chroma transform of a block.
pub fn largest_chroma_tx_size(bsize: BlockSize, xdec: usize, ydec: usize) -> (r: TxSize)
    requires
        bsize.subsamples(xdec as int, ydec as int),
    ensures
        r == uv_tx_size(bsize, xdec as int, ydec as int),
        (r.wl(), r.hl()) == uv_log2(bsize, xdec as int, ydec as int),
{
    let w: usize = bsize.width_log2() - xdec;
    let h: usize = bsize.height_log2() - ydec;
    let wl: usize = if w < 2 {
        2
    } else if w > 5 {
        5
    } else {
        w
    };
    let hl: usize = if h < 2 {
        2
    } else if h > 5 {
        5
    } else {
        h
    };
    TxSize::from_log2(wl, hl)
}

impl ResidualBlock {
    /// The block is no larger than a superblock and covers its transform, and its
    /// chroma has a transform.
    pub open spec fn wf(self) -> bool {
        &&& self.bsize.wl() <= 6
        &&& self.bsize.hl() <= 6
        &&& self.tx_size.wl() <= self.bsize.wl()
        &&& self.tx_size.hl() <= self.bsize.hl()
        &&& self.bo.x <= 0x1000_0000
        &&& self.bo.y <= 0x1000_0000
        &&& self.xdec <= 1
        &&& self.ydec <= 1
        &&& self.with_chroma() ==> self.bsize.subsamples(self.xdec as int, self.ydec as int)
    }

    /// Some luma transform block lies inside the tile.
    pub open spec fn inside(self) -> bool {
        self.bo.x < self.mi_width && self.bo.y < self.mi_height
    }

    /// Chroma is coded with this block.
    pub open spec fn with_chroma(self) -> bool {
        chroma_at(self.bo, self.bsize, self.xdec as int, self.ydec as int, self.chroma_sampling) && !self.luma_only
    }

    /// Luma transform blocks across and down.
    pub open spec fn luma_cols(self) -> int {
        (self.bsize.w() / 4) / (self.tx_size.w() / 4)
    }

    pub open spec fn luma_rows(self) -> int {
        (self.bsize.h() / 4) / (self.tx_size.h() / 4)
    }

    /// The corner of the `k`-th luma transform block in raster order.
    pub open spec fn luma_bo(self, k: int) -> TileBlockOffset {
        TileBlockOffset {
            x: (self.bo.x + (k % self.luma_cols()) * (self.tx_size.w() / 4)) as usize,
            y: (self.bo.y + (k / self.luma_cols()) * (self.tx_size.h() / 4)) as usize,
        }
    }

    /// The `k`-th luma transform block. Only intra prediction asks for its place in
    /// the block.
    pub open spec fn luma_call(self, k: int, placed: bool) -> TxCall {
        let o = self.luma_bo(k);
        TxCall {
            plane: 0,
            bx: if placed { (k % self.luma_cols()) as usize } else { 0 },
            by: if placed { (k / self.luma_cols()) as usize } else { 0 },
            tx_bo: o,
            x: (o.x * 4) as usize,
            y: (o.y * 4) as usize,
            mode: self.luma_mode,
            tx_size: self.tx_size,
            tx_type: self.tx_type,
        }
    }

    /// The first `n` luma transform blocks, but for those outside the tile.
    pub open spec fn luma_calls(self, n: int, placed: bool) -> Seq<ResidualStep>
        decreases n,
    {
        if n <= 0 {
            seq![]
        } else {
            let o = self.luma_bo(n - 1);
            if o.x >= self.mi_width || o.y >= self.mi_height {
                self.luma_calls(n - 1, placed)
            } else {
                self.luma_calls(n - 1, placed).push(ResidualStep::Encode(self.luma_call(n - 1, placed)))
            }
        }
    }

    /// Luma transform blocks.
    pub fn luma_grid(&self) -> (r: (usize, usize))
        requires
            self.wf(),
        ensures
            r.0 == self.luma_cols(),
            r.1 == self.luma_rows(),
            1 <= r.0 <= 16,
            1 <= r.1 <= 16,
            r.0 * (self.tx_size.w() / 4) == self.bsize.w() / 4,
            r.1 * (self.tx_size.h() / 4) == self.bsize.h() / 4,
    {
        proof {
            crate::context::transform_unit::lemma_sub_counts(self.bsize, self.tx_size);
        }
        (self.bsize.width_mi() / self.tx_size.width_mi(), self.bsize.height_mi() / self.tx_size.height_mi())
    }

    /// Adds the luma transform blocks.
    fn push_luma(&self, out: &mut Vec<ResidualStep>, placed: bool)
        requires
            self.wf(),
        ensures
            final(out)@ == old(out)@ + self.luma_calls(self.luma_cols() * self.luma_rows(), placed),
    {
        let (bw, bh): (usize, usize) = self.luma_grid();
        let tw: usize = self.tx_size.width_mi();
        let th: usize = self.tx_size.height_mi();
        let ghost before = out@;
        let mut by: usize = 0;
        assert(0 * bw == 0) by (nonlinear_arith);
        while by < bh
            invariant
                by <= bh <= 16,
                1 <= bw <= 16,
                self.wf(),
                bw == self.luma_cols(),
                bh == self.luma_rows(),
                tw == self.tx_size.w() / 4,
                th == self.tx_size.h() / 4,
                tw <= 16,
                th <= 16,
                out@ =~= before + self.luma_calls(by * bw, placed),
            decreases bh - by,
        {
            let mut bx: usize = 0;
            while bx < bw
                invariant
                    bx <= bw <= 16,
                    by < bh <= 16,
                    1 <= bw,
                    self.wf(),
                    bw == self.luma_cols(),
                    bh == self.luma_rows(),
                    tw == self.tx_size.w() / 4,
                    th == self.tx_size.h() / 4,
                    tw <= 16,
                    th <= 16,
                    out@ =~= before + self.luma_calls(by * bw + bx, placed),
                decreases bw - bx,
            {
                proof {
                    vstd::arithmetic::div_mod::lemma_fundamental_div_mod_converse(by * bw + bx, bw as int, by as int, bx as int);
                    assert(0 <= bx * tw <= 256 && 0 <= by * th <= 256) by (nonlinear_arith)
                        requires 0 <= bx <= 16, 0 <= by <= 16, 0 <= tw <= 16, 0 <= th <= 16;
                }
                let tx_bo: TileBlockOffset = TileBlockOffset { x: self.bo.x + bx * tw, y: self.bo.y + by * th };
                let ghost k = by * bw + bx;
                assert(tx_bo == self.luma_bo(k));
                if !(tx_bo.x >= self.mi_width || tx_bo.y >= self.mi_height) {
                    let call: TxCall = TxCall {
                        plane: 0,
                        bx: if placed { bx } else { 0 },
                        by: if placed { by } else { 0 },
                        tx_bo,
                        x: tx_bo.x * 4,
                        y: tx_bo.y * 4,
                        mode: self.luma_mode,
                        tx_size: self.tx_size,
                        tx_type: self.tx_type,
                    };
                    assert(call == self.luma_call(k, placed));
                    out.push(ResidualStep::Encode(call));
                }
                bx = bx + 1;
            }
            assert(by * bw + bw == (by + 1) * bw) by (nonlinear_arith);
            by = by + 1;
        }
        assert(bh * bw == bw * bh) by (nonlinear_arith);
    }
}

impl ResidualBlock {
    /// Chroma transform blocks across and down: as many as fit the block's area on
    /// the plane; a block that is too small for the plane counts as one unit.
    pub open spec fn uv_cols(self) -> int {
        let uv = uv_tx_size(self.bsize, self.xdec as int, self.ydec as int);
        uv_units(self).0 / (uv.w() / 4)
    }

    pub open spec fn uv_rows(self) -> int {
        let uv = uv_tx_size(self.bsize, self.xdec as int, self.ydec as int);
        uv_units(self).1 / (uv.h() / 4)
    }

    /// The `k`-th transform block of a chroma plane. Its corner is that of the luma
    /// it belongs to, which for a block that shares its chroma lies before the block.
    pub open spec fn uv_call(self, p: int, k: int, mode: PredictionMode, tx_type: TxType) -> TxCall {
        let uv = uv_tx_size(self.bsize, self.xdec as int, self.ydec as int);
        let bx = k % self.uv_cols();
        let by = k / self.uv_cols();
        TxCall {
            plane: p as usize,
            bx: bx as usize,
            by: by as usize,
            tx_bo: TileBlockOffset {
                x: (self.bo.x + bx * (uv.w() / 4) * step(self.xdec as int) - if self.bsize.w() == 4 { self.xdec as int } else { 0 }) as usize,
                y: (self.bo.y + by * (uv.h() / 4) * step(self.ydec as int) - if self.bsize.h() == 4 { self.ydec as int } else { 0 }) as usize,
            },
            x: (plane_pos(self.bo.x as int, self.xdec as int) + bx * uv.w()) as usize,
            y: (plane_pos(self.bo.y as int, self.ydec as int) + by * uv.h()) as usize,
            mode,
            tx_size: uv,
            tx_type,
        }
    }

    /// The first `n` transform blocks of a chroma plane.
    pub open spec fn uv_calls(self, p: int, n: int, mode: PredictionMode, tx_type: TxType) -> Seq<ResidualStep>
        decreases n,
    {
        if n <= 0 {
            seq![]
        } else {
            self.uv_calls(p, n - 1, mode, tx_type).push(ResidualStep::Encode(self.uv_call(p, n - 1, mode, tx_type)))
        }
    }

    /// The steps of a chroma plane.
    pub open spec fn uv_plane_steps(self, p: int, is_intra: bool, mode: PredictionMode, tx_type: TxType) -> Seq<ResidualStep> {
        let uv = uv_tx_size(self.bsize, self.xdec as int, self.ydec as int);
        seq![
            ResidualStep::UpdateQuantizer {
                plane: p as usize,
                tx_size: uv,
                is_intra,
                dc_delta_q: self.dc_delta_q@[p],
                ac_delta_q: self.ac_delta_q@[p],
            },
        ] + self.uv_calls(p, self.uv_cols() * self.uv_rows(), mode, tx_type)
    }

    /// The steps of both chroma planes, where the block carries chroma and it is
    /// wanted.
    pub open spec fn uv_steps(self, is_intra: bool, mode: PredictionMode, tx_type: TxType) -> Seq<ResidualStep> {
        if self.with_chroma() {
            self.uv_plane_steps(1, is_intra, mode, tx_type) + self.uv_plane_steps(2, is_intra, mode, tx_type)
        } else {
            seq![]
        }
    }

    /// Chroma transform blocks across and down.
    fn uv_grid(&self, uv: TxSize) -> (r: (usize, usize))
        requires
            self.wf(),
            uv == uv_tx_size(self.bsize, self.xdec as int, self.ydec as int),
        ensures
            r.0 == self.uv_cols(),
            r.1 == self.uv_rows(),
            r.0 <= 16,
            r.1 <= 16,
    {
        let tw: usize = uv.width_mi();
        let th: usize = uv.height_mi();
        let u: usize = halve(self.bsize.width_mi(), self.xdec);
        let v: usize = halve(self.bsize.height_mi(), self.ydec);
        let (u1, v1): (usize, usize) = if u == 0 || v == 0 { (1, 1) } else { (u, v) };
        proof {
            lemma_div_at_most(u1 as int, tw as int);
            lemma_div_at_most(v1 as int, th as int);
        }
        (u1 / tw, v1 / th)
    }

    /// The `(bx, by)`-th transform block of a chroma plane.
    fn uv_call_at(&self, p: usize, bx: usize, by: usize, uv: TxSize, mode: PredictionMode, tx_type: TxType, Ghost(k): Ghost<int>) -> (r: TxCall)
        requires
            self.wf(),
            self.with_chroma(),
            uv == uv_tx_size(self.bsize, self.xdec as int, self.ydec as int),
            bx < 16,
            by < 16,
            bx == k % self.uv_cols(),
            by == k / self.uv_cols(),
        ensures
            r == self.uv_call(p as int, k, mode, tx_type),
    {
        let tw: usize = uv.width_mi();
        let th: usize = uv.height_mi();
        let sx: usize = if self.xdec == 1 { 2 } else { 1 };
        let sy: usize = if self.ydec == 1 { 2 } else { 1 };
        let back_x: usize = if self.bsize.width() == 4 { self.xdec } else { 0 };
        let back_y: usize = if self.bsize.height() == 4 { self.ydec } else { 0 };
        let px: usize = if self.xdec == 1 { (self.bo.x / 2) * 4 } else { self.bo.x * 4 };
        let py: usize = if self.ydec == 1 { (self.bo.y / 2) * 4 } else { self.bo.y * 4 };
        proof {
            assert(0 <= bx * tw <= 256 && 0 <= by * th <= 256) by (nonlinear_arith)
                requires 0 <= bx <= 16, 0 <= by <= 16, 0 <= tw <= 16, 0 <= th <= 16;
            assert(0 <= (bx * tw) * sx <= 512 && 0 <= (by * th) * sy <= 512) by (nonlinear_arith)
                requires 0 <= bx * tw <= 256, 0 <= by * th <= 256, 1 <= sx <= 2, 1 <= sy <= 2;
            assert(0 <= bx * uv.w() <= 1024 && 0 <= by * uv.h() <= 1024) by (nonlinear_arith)
                requires 0 <= bx <= 16, 0 <= by <= 16, 0 <= uv.w() <= 64, 0 <= uv.h() <= 64;
        }
        TxCall {
            plane: p,
            bx,
            by,
            tx_bo: TileBlockOffset { x: self.bo.x + bx * tw * sx - back_x, y: self.bo.y + by * th * sy - back_y },
            x: px + bx * uv.width(),
            y: py + by * uv.height(),
            mode,
            tx_size: uv,
            tx_type,
        }
    }

    /// Adds the transform blocks of a chroma plane.
    fn push_uv_calls(&self, out: &mut Vec<ResidualStep>, p: usize, uv: TxSize, mode: PredictionMode, tx_type: TxType)
        requires
            self.wf(),
            self.with_chroma(),
            uv == uv_tx_size(self.bsize, self.xdec as int, self.ydec as int),
        ensures
            final(out)@ == old(out)@ + self.uv_calls(p as int, self.uv_cols() * self.uv_rows(), mode, tx_type),
    {
        let (cols, rows): (usize, usize) = self.uv_grid(uv);
        let ghost before = out@;
        let ghost nc = self.uv_cols();
        let ghost nr = self.uv_rows();
        let mut by: usize = 0;
        assert(0 * cols == 0) by (nonlinear_arith);
        while by < rows
            invariant
                by <= rows <= 16,
                cols <= 16,
                self.wf(),
                self.with_chroma(),
                uv == uv_tx_size(self.bsize, self.xdec as int, self.ydec as int),
                nc == self.uv_cols(),
                cols == nc,
                rows == nr,
                out@ =~= before + self.uv_calls(p as int, by * cols, mode, tx_type),
            decreases rows - by,
        {
            let mut bx: usize = 0;
            while bx < cols
                invariant
                    bx <= cols <= 16,
                    by < rows <= 16,
                    self.wf(),
                    self.with_chroma(),
                    uv == uv_tx_size(self.bsize, self.xdec as int, self.ydec as int),
                    nc == self.uv_cols(),
                    cols == nc,
                    out@ =~= before + self.uv_calls(p as int, by * cols + bx, mode, tx_type),
                decreases cols - bx,
            {
                proof {
                    vstd::arithmetic::div_mod::lemma_fundamental_div_mod_converse(by * cols + bx, cols as int, by as int, bx as int);
                }
                let call: TxCall = self.uv_call_at(p, bx, by, uv, mode, tx_type, Ghost(by * cols + bx));
                out.push(ResidualStep::Encode(call));
                bx = bx + 1;
            }
            assert(by * cols + cols == (by + 1) * cols) by (nonlinear_arith);
            by = by + 1;
        }
        assert(rows * cols == cols * rows) by (nonlinear_arith);
    }

    /// Adds the steps of a chroma plane.
    fn push_uv_plane(&self, out: &mut Vec<ResidualStep>, p: usize, is_intra: bool, mode: PredictionMode, tx_type: TxType)
        requires
            self.wf(),
            self.with_chroma(),
            p == 1 || p == 2,
        ensures
            final(out)@ == old(out)@ + self.uv_plane_steps(p as int, is_intra, mode, tx_type),
    {
        let uv: TxSize = largest_chroma_tx_size(self.bsize, self.xdec, self.ydec);
        let ghost start = out@;
        let first: ResidualStep = ResidualStep::UpdateQuantizer { plane: p, tx_size: uv, is_intra, dc_delta_q: self.dc_delta_q[p], ac_delta_q: self.ac_delta_q[p] };
        out.push(first);
        assert(out@ =~= start + seq![first]);
        self.push_uv_calls(out, p, uv, mode, tx_type);
        assert((start + seq![first]) + self.uv_calls(p as int, self.uv_cols() * self.uv_rows(), mode, tx_type) =~= start + (seq![first] + self.uv_calls(
            p as int,
            self.uv_cols() * self.uv_rows(),
            mode,
            tx_type,
        )));
    }

    /// Adds the transform blocks of both chroma planes.
    fn push_uv(&self, out: &mut Vec<ResidualStep>, is_intra: bool, mode: PredictionMode, tx_type: TxType)
        requires
            self.wf(),
            self.with_chroma(),
        ensures
            final(out)@ == old(out)@ + self.uv_steps(is_intra, mode, tx_type),
    {
        let ghost before = out@;
        self.push_uv_plane(out, 1, is_intra, mode, tx_type);
        self.push_uv_plane(out, 2, is_intra, mode, tx_type);
        assert(out@ =~= before + (self.uv_plane_steps(1, is_intra, mode, tx_type) + self.uv_plane_steps(2, is_intra, mode, tx_type)));
    }

    /// The transform type of chroma that is predicted within the frame: the one for
    /// its mode, unless the transform is too large for a choice.
    pub open spec fn uv_intra_tx_type(self) -> TxType {
        let uv = uv_tx_size(self.bsize, self.xdec as int, self.ydec as int);
        if uv.w() >= 32 || uv.h() >= 32 { TxType::DCT_DCT } else { tx_type_for_mode(self.chroma_mode) }
    }
}

proof fn lemma_div_at_most(v: int, d: int)
    requires
        0 <= v,
        1 <= d,
    ensures
        0 <= v / d <= v,
{
    assert(0 <= v / d <= v) by (nonlinear_arith)
        requires 0 <= v, 1 <= d;
}

/// The block's units on the chroma planes, across and down.
pub open spec fn uv_units(b: ResidualBlock) -> (int, int) {
    let u = scaled(b.bsize.w() / 4, b.xdec as int);
    let v = scaled(b.bsize.h() / 4, b.ydec as int);
    if u == 0 || v == 0 { (1, 1) } else { (u, v) }
}

/// Luma units for each unit of a plane.
pub open spec fn step(dec: int) -> int {
    if dec == 1 { 2 } else { 1 }
}

/// Luma results of a block that later trials of its chroma modes take over: the
/// rate in eighths of a bit, the distortion, and whether there are coefficients.
#[derive(Clone, Copy, Debug, PartialEq, Eq)]
pub struct LumaReuse {
    pub cached: Option<(u32, u64, bool)>,
}

impl LumaReuse {
    /// Nothing is known yet.
    pub fn new() -> (r: Self)
        ensures
            r.cached is None,
    {
        LumaReuse { cached: None }
    }
}

/// Luma is taken over from an earlier trial.
pub open spec fn takes_over(reuse: Option<LumaReuse>) -> bool {
    reuse matches Some(r) && r.cached is Some
}

/// The luma steps of an intra block: from an earlier trial, or block by block.
pub open spec fn intra_luma_steps(b: ResidualBlock, reuse: Option<LumaReuse>) -> Seq<ResidualStep> {
    if takes_over(reuse) {
        seq![ResidualStep::ReuseLuma]
    } else {
        b.luma_calls(b.luma_cols() * b.luma_rows(), true) + if reuse is Some { seq![ResidualStep::CacheLuma] } else { seq![] }
    }
}

/// The chroma steps of an intra block.
pub open spec fn intra_chroma_steps(b: ResidualBlock) -> Seq<ResidualStep> {
    (if b.with_chroma() && b.chroma_mode == PredictionMode::UV_CFL_PRED { seq![ResidualStep::LumaAc] } else { seq![] }) + b.uv_steps(
        true,
        b.chroma_mode,
        b.uv_intra_tx_type(),
    )
}

/// The steps of an intra block's residual: luma, then chroma.
pub open spec fn tx_blocks_steps(b: ResidualBlock, reuse: Option<LumaReuse>) -> Seq<ResidualStep> {
    seq![
        ResidualStep::UpdateQuantizer {
            plane: 0,
            tx_size: b.tx_size,
            is_intra: !b.luma_mode.inter(),
            dc_delta_q: b.dc_delta_q@[0],
            ac_delta_q: 0,
        },
    ] + intra_luma_steps(b, reuse) + intra_chroma_steps(b)
}

/// A trial that takes its luma over from another codes its chroma as one that does
/// not.
pub proof fn law_reuse_leaves_chroma_alone(b: ResidualBlock, x: Option<LumaReuse>, y: Option<LumaReuse>)
    ensures
        tx_blocks_steps(b, x).skip(1 + intra_luma_steps(b, x).len() as int) == tx_blocks_steps(b, y).skip(1 + intra_luma_steps(b, y).len() as int),
{
    let c = intra_chroma_steps(b);
    assert(tx_blocks_steps(b, x).skip(1 + intra_luma_steps(b, x).len() as int) =~= c);
    assert(tx_blocks_steps(b, y).skip(1 + intra_luma_steps(b, y).len() as int) =~= c);
}

/// The steps of coding the residual of an intra block.
pub fn write_tx_blocks(b: &ResidualBlock, qidx: u8, skip: bool, luma_reuse: Option<LumaReuse>) -> (r: Vec<ResidualStep>)
    requires
        b.wf(),
        !skip ==> qidx != 0,
        b.with_chroma() ==> !b.chroma_mode.inter(),
        b.inside() && !takes_over(luma_reuse) ==> type_fits(b.tx_size, b.tx_type),
    ensures
        r@ == tx_blocks_steps(*b, luma_reuse),
{
    let mut out: Vec<ResidualStep> = Vec::new();
    out.push(ResidualStep::UpdateQuantizer {
        plane: 0,
        tx_size: b.tx_size,
        is_intra: !b.luma_mode.is_inter(),
        dc_delta_q: b.dc_delta_q[0],
        ac_delta_q: 0,
    });
    let ghost a0 = out@;
    let cached: bool = match luma_reuse {
        Some(r) => r.cached.is_some(),
        None => false,
    };
    if cached {
        out.push(ResidualStep::ReuseLuma);
    } else {
        b.push_luma(&mut out, true);
        if luma_reuse.is_some() {
            out.push(ResidualStep::CacheLuma);
        }
    }
    let ghost luma = intra_luma_steps(*b, luma_reuse);
    let ghost a1 = out@;
    assert(a1 =~= a0 + luma);
    if has_chroma(b.bo, b.bsize, b.xdec, b.ydec, b.chroma_sampling) && !b.luma_only {
        if b.chroma_mode == PredictionMode::UV_CFL_PRED {
            out.push(ResidualStep::LumaAc);
        }
        let uv: TxSize = largest_chroma_tx_size(b.bsize, b.xdec, b.ydec);
        let uv_tx_type: TxType = if uv.width() >= 32 || uv.height() >= 32 {
            TxType::DCT_DCT
        } else {
            uv_intra_mode_to_tx_type_context(b.chroma_mode)
        };
        b.push_uv(&mut out, true, b.chroma_mode, uv_tx_type);
    }
    assert(out@ =~= tx_blocks_steps(*b, luma_reuse));
    out
}

/// The luma steps of an inter block's residual; a skipped block has none.
pub open spec fn tx_tree_luma_steps(b: ResidualBlock, skip: bool) -> Seq<ResidualStep> {
    if skip {
        seq![]
    } else {
        seq![
            ResidualStep::UpdateQuantizer {
                plane: 0,
                tx_size: b.tx_size,
                is_intra: !b.luma_mode.inter(),
                dc_delta_q: b.dc_delta_q@[0],
                ac_delta_q: 0,
            },
        ] + b.luma_calls(b.luma_cols() * b.luma_rows(), false)
    }
}

/// The luma steps of coding the residual of an inter block.
pub fn write_tx_tree(b: &ResidualBlock, skip: bool) -> (r: Vec<ResidualStep>)
    requires
        b.wf(),
        !skip && b.inside() ==> type_fits(b.tx_size, b.tx_type),
    ensures
        r@ == tx_tree_luma_steps(*b, skip),
{
    let mut out: Vec<ResidualStep> = Vec::new();
    if !skip {
        out.push(ResidualStep::UpdateQuantizer {
            plane: 0,
            tx_size: b.tx_size,
            is_intra: !b.luma_mode.is_inter(),
            dc_delta_q: b.dc_delta_q[0],
            ac_delta_q: 0,
        });
        b.push_luma(&mut out, false);
    }
    assert(out@ =~= tx_tree_luma_steps(*b, skip));
    out
}

/// The chroma steps of coding the residual of an inter block, once it is known
/// whether its luma has coefficients: if so, chroma takes `uv_inter`, the type that
/// goes with luma's.
pub fn write_tx_tree_chroma(b: &ResidualBlock, skip: bool, luma_has_coeff: bool, uv_inter: TxType) -> (r: Vec<ResidualStep>)
    requires
        b.wf(),
    ensures
        r@ == if skip {
            Seq::empty()
        } else {
            b.uv_steps(false, b.luma_mode, if luma_has_coeff { uv_inter } else { TxType::DCT_DCT })
        },
{
    let mut out: Vec<ResidualStep> = Vec::new();
    if !skip && has_chroma(b.bo, b.bsize, b.xdec, b.ydec, b.chroma_sampling) && !b.luma_only {
        let uv_tx_type: TxType = if luma_has_coeff { uv_inter } else { TxType::DCT_DCT };
        b.push_uv(&mut out, false, b.luma_mode, uv_tx_type);
    }
    assert(out@ =~= if skip {
        Seq::empty()
    } else {
        b.uv_steps(false, b.luma_mode, if luma_has_coeff { uv_inter } else { TxType::DCT_DCT })
    });
    out
}

/// The distortions of the first `n` transform blocks together.
pub open spec fn total_distortion(s: Seq<(bool, u64)>, n: int) -> int
    decreases n,
{
    if n <= 0 { 0 } else { total_distortion(s, n - 1) + s[n - 1].1 }
}

/// Some transform block has a coefficient.
pub open spec fn any_coefficient(s: Seq<(bool, u64)>) -> bool {
    exists|i: int| 0 <= i < s.len() && (#[trigger] s[i]).0
}

/// The results of a block's transform blocks taken together: whether any has a
/// coefficient, and the sum of their distortions.
pub fn combine_results(results: &[(bool, u64)]) -> (r: (bool, u64))
    requires
        total_distortion(results@, results.len() as int) <= u64::MAX,
    ensures
        r.0 == any_coefficient(results@),
        r.1 == total_distortion(results@, results.len() as int),
{
    let mut any: bool = false;
    let mut dist: u64 = 0;
    let mut i: usize = 0;
    while i < results.len()
        invariant
            i <= results.len(),
            total_distortion(results@, results.len() as int) <= u64::MAX,
            any == (exists|k: int| 0 <= k < i && (#[trigger] results@[k]).0),
            dist == total_distortion(results@, i as int),
        decreases results.len() - i,
    {
        proof {
            lemma_total_grows(results@, i + 1, results.len() as int);
        }
        let (has_coeff, d): (bool, u64) = results[i];
        if has_coeff {
            assert(results@[i as int].0);
            any = true;
        }
        dist = dist + d;
        i = i + 1;
    }
    (any, dist)
}

proof fn lemma_total_grows(s: Seq<(bool, u64)>, m: int, n: int)
    requires
        0 <= m <= n,
    ensures
        total_distortion(s, m) <= total_distortion(s, n),
    decreases n - m,
{
    if m < n {
        lemma_total_grows(s, m, n - 1);
    }
}

/// The place is that of the block's transform blocks.
pub open spec fn places(at: TxPlace, b: ResidualBlock) -> bool {
    &&& at.mi_width == b.mi_width
    &&& at.mi_height == b.mi_height
    &&& at.xdec == b.xdec
    &&& at.ydec == b.ydec
    &&& at.bsize == b.bsize
}

/// Every transform block that the residual of an intra block asks for can be coded: its
/// type goes with its size, and its block has a counterpart on its plane. Where the block
/// is skipped, it has neither coefficients nor distortion.
pub proof fn law_intra_steps_can_be_coded(b: ResidualBlock, reuse: Option<LumaReuse>, at: TxPlace, skip: bool, i: int, written: bool, dist: u64)
    requires
        b.wf(),
        b.inside() && !takes_over(reuse) ==> type_fits(b.tx_size, b.tx_type),
        places(at, b),
        0 <= i < tx_blocks_steps(b, reuse).len(),
    ensures
        tx_blocks_steps(b, reuse)[i] matches ResidualStep::Encode(call) ==> {
            let block = call.block_at(at, skip);
            &&& !block.outside() ==> block.allowed()
            &&& skip ==> block_result(block, written, dist) == (false, 0u64)
            &&& call.plane < 3
            &&& call.plane > 0 ==> b.with_chroma()
            &&& call.mode == if call.plane == 0 { b.luma_mode } else { b.chroma_mode }
        },
{
    let head = seq![
        ResidualStep::UpdateQuantizer {
            plane: 0,
            tx_size: b.tx_size,
            is_intra: !b.luma_mode.inter(),
            dc_delta_q: b.dc_delta_q@[0],
            ac_delta_q: 0,
        },
    ];
    let luma = intra_luma_steps(b, reuse);
    let n = b.luma_cols() * b.luma_rows();
    assert(tx_blocks_steps(b, reuse) == head + luma + intra_chroma_steps(b));
    if 1 <= i < 1 + luma.len() {
        assert(tx_blocks_steps(b, reuse)[i] == luma[i - 1]);
        if !takes_over(reuse) && i - 1 < b.luma_calls(n, true).len() {
            assert(luma[i - 1] == b.luma_calls(n, true)[i - 1]);
            lemma_luma_calls(b, n, true, i - 1);
        }
    } else if i > luma.len() {
        let j = i - 1 - luma.len();
        assert(tx_blocks_steps(b, reuse)[i] == intra_chroma_steps(b)[j]);
        let ac: Seq<ResidualStep> = if b.with_chroma() && b.chroma_mode == PredictionMode::UV_CFL_PRED {
            seq![ResidualStep::LumaAc]
        } else {
            seq![]
        };
        let uv = b.uv_steps(true, b.chroma_mode, b.uv_intra_tx_type());
        assert(intra_chroma_steps(b) == ac + uv);
        if j >= ac.len() {
            assert(intra_chroma_steps(b)[j] == uv[j - ac.len()]);
            lemma_uv_steps(b, true, b.chroma_mode, b.uv_intra_tx_type(), at, skip, j - ac.len());
        }
    }
}

/// The transform blocks of an intra block are predicted with the block's own parameters:
/// luma with the angle of luma, chroma with the factor of its plane where it is predicted
/// from luma, and with the angle of chroma where it is not.
pub proof fn law_intra_steps_take_their_parameters(b: ResidualBlock, reuse: Option<LumaReuse>, at: TxPlace, i: int, angle: AngleDelta, alpha: Seq<i16>)
    requires
        b.wf(),
        b.with_chroma() ==> !b.chroma_mode.inter(),
        b.inside() && !takes_over(reuse) ==> type_fits(b.tx_size, b.tx_type),
        places(at, b),
        0 <= i < tx_blocks_steps(b, reuse).len(),
    ensures
        tx_blocks_steps(b, reuse)[i] matches ResidualStep::Encode(call) ==> {
            let param = param_of(call.plane as int, call.mode, angle, alpha);
            &&& call.plane == 0 ==> param == IntraParam::AngleDelta(angle.y)
            &&& call.plane != 0 && b.chroma_mode == PredictionMode::UV_CFL_PRED ==> param == IntraParam::Alpha(alpha[call.plane - 1])
            &&& call.plane != 0 && b.chroma_mode != PredictionMode::UV_CFL_PRED ==> param == IntraParam::AngleDelta(angle.uv)
        },
{
    law_intra_steps_can_be_coded(b, reuse, at, false, i, false, 0);
}

/// Every transform block that the residual of an inter block asks for can be coded.
pub proof fn law_inter_steps_can_be_coded(b: ResidualBlock, at: TxPlace, i: int, mode: PredictionMode, tx_type: TxType)
    requires
        b.wf(),
        b.inside() ==> type_fits(b.tx_size, b.tx_type),
        places(at, b),
    ensures
        0 <= i < tx_tree_luma_steps(b, false).len() ==> (tx_tree_luma_steps(b, false)[i] matches ResidualStep::Encode(call) ==> {
            let block = call.block_at(at, false);
            !block.outside() ==> block.allowed()
        }),
        0 <= i < b.uv_steps(false, mode, tx_type).len() ==> (b.uv_steps(false, mode, tx_type)[i] matches ResidualStep::Encode(call) ==> {
            let block = call.block_at(at, false);
            !block.outside() ==> block.allowed()
        }),
{
    let n = b.luma_cols() * b.luma_rows();
    if 1 <= i < tx_tree_luma_steps(b, false).len() {
        assert(tx_tree_luma_steps(b, false)[i] == b.luma_calls(n, false)[i - 1]);
        lemma_luma_calls(b, n, false, i - 1);
    }
    if 0 <= i < b.uv_steps(false, mode, tx_type).len() {
        lemma_uv_steps(b, false, mode, tx_type, at, false, i);
    }
}

/// The transform blocks of an inter block are predicted with the angle of luma, on every
/// plane.
pub proof fn law_inter_steps_take_the_luma_angle(b: ResidualBlock, at: TxPlace, i: int, tx_type: TxType, angle: AngleDelta, alpha: Seq<i16>)
    requires
        b.wf(),
        b.luma_mode.inter(),
        places(at, b),
    ensures
        0 <= i < tx_tree_luma_steps(b, false).len() ==> (tx_tree_luma_steps(b, false)[i] matches ResidualStep::Encode(call) ==>
            param_of(call.plane as int, call.mode, angle, alpha) == IntraParam::AngleDelta(angle.y)),
        0 <= i < b.uv_steps(false, b.luma_mode, tx_type).len() ==> (b.uv_steps(false, b.luma_mode, tx_type)[i] matches ResidualStep::Encode(call) ==>
            param_of(call.plane as int, call.mode, angle, alpha) == IntraParam::AngleDelta(angle.y)),
{
    let n = b.luma_cols() * b.luma_rows();
    if 1 <= i < tx_tree_luma_steps(b, false).len() {
        assert(tx_tree_luma_steps(b, false)[i] == b.luma_calls(n, false)[i - 1]);
        lemma_luma_calls(b, n, false, i - 1);
    }
    if 0 <= i < b.uv_steps(false, b.luma_mode, tx_type).len() {
        lemma_uv_steps(b, false, b.luma_mode, tx_type, at, false, i);
    }
}

/// The luma transform blocks are those of the block, and there are some only where the
/// block lies inside the tile.
proof fn lemma_luma_calls(b: ResidualBlock, n: int, placed: bool, i: int)
    requires
        b.wf(),
        n <= b.luma_cols() * b.luma_rows(),
        0 <= i < b.luma_calls(n, placed).len(),
    ensures
        b.inside(),
        b.luma_calls(n, placed)[i] matches ResidualStep::Encode(call) && call.plane == 0 && call.tx_size == b.tx_size && call.tx_type == b.tx_type
            && call.mode == b.luma_mode,
    decreases n,
{
    let o = b.luma_bo(n - 1);
    let before = b.luma_calls(n - 1, placed);
    if i < before.len() {
        lemma_luma_calls(b, n - 1, placed, i);
        assert(b.luma_calls(n, placed)[i] == before[i]);
    } else {
        lemma_luma_bo(b, n - 1);
    }
}

/// No luma transform block starts before the block.
proof fn lemma_luma_bo(b: ResidualBlock, k: int)
    requires
        b.wf(),
        0 <= k < b.luma_cols() * b.luma_rows(),
    ensures
        b.luma_bo(k).x >= b.bo.x,
        b.luma_bo(k).y >= b.bo.y,
{
    crate::context::transform_unit::lemma_sub_counts(b.bsize, b.tx_size);
    let cols = b.luma_cols();
    let rows = b.luma_rows();
    let tw = b.tx_size.w() / 4;
    let th = b.tx_size.h() / 4;
    assert(1 <= cols <= 16 && 1 <= rows <= 16);
    let x = k % cols;
    let y = k / cols;
    assert(0 <= x < cols && 0 <= y < rows) by (nonlinear_arith)
        requires 0 <= k < cols * rows, cols >= 1, x == k % cols, y == k / cols,
    ;
    assert(0 <= x * tw <= 256 && 0 <= y * th <= 256) by (nonlinear_arith)
        requires 0 <= x <= 16, 0 <= y <= 16, 1 <= tw <= 16, 1 <= th <= 16,
    ;
}

proof fn lemma_uv_calls(b: ResidualBlock, p: int, n: int, mode: PredictionMode, tx_type: TxType, i: int)
    requires
        0 <= i < b.uv_calls(p, n, mode, tx_type).len(),
        p == 1 || p == 2,
    ensures
        b.uv_calls(p, n, mode, tx_type)[i] matches ResidualStep::Encode(call) && call.plane == p && call.tx_size == uv_tx_size(
            b.bsize,
            b.xdec as int,
            b.ydec as int,
        ) && call.mode == mode,
    decreases n,
{
    let before = b.uv_calls(p, n - 1, mode, tx_type);
    if i < before.len() {
        lemma_uv_calls(b, p, n - 1, mode, tx_type, i);
        assert(b.uv_calls(p, n, mode, tx_type)[i] == before[i]);
    }
}

/// Chroma transforms have at most 32 samples a side, so that any type goes with them.
proof fn lemma_uv_steps(b: ResidualBlock, is_intra: bool, mode: PredictionMode, tx_type: TxType, at: TxPlace, skip: bool, i: int)
    requires
        b.wf(),
        places(at, b),
        0 <= i < b.uv_steps(is_intra, mode, tx_type).len(),
    ensures
        b.uv_steps(is_intra, mode, tx_type)[i] matches ResidualStep::Encode(call) ==> {
            &&& call.block_at(at, skip).allowed()
            &&& 1 <= call.plane <= 2
            &&& call.mode == mode
        },
{
    let uv = uv_tx_size(b.bsize, b.xdec as int, b.ydec as int);
    assert(uv.wl() <= 5);
    let n = b.uv_cols() * b.uv_rows();
    let p1 = b.uv_plane_steps(1, is_intra, mode, tx_type);
    let p2 = b.uv_plane_steps(2, is_intra, mode, tx_type);
    assert(b.uv_steps(is_intra, mode, tx_type) == p1 + p2);
    if 1 <= i < p1.len() {
        assert(p1[i] == b.uv_calls(1, n, mode, tx_type)[i - 1]);
        lemma_uv_calls(b, 1, n, mode, tx_type, i - 1);
    } else if i > p1.len() {
        let j = i - p1.len();
        assert(p2[j] == b.uv_calls(2, n, mode, tx_type)[j - 1]);
        lemma_uv_calls(b, 2, n, mode, tx_type, j - 1);
    }
}

/// The results of the transform blocks of a skipped block.
pub open spec fn all_skipped(results: Seq<(bool, u64)>) -> bool {
    forall|i: int| 0 <= i < results.len() ==> #[trigger] results[i] == (false, 0u64)
}

/// A skipped block has neither coefficients nor distortion: the results of its
/// transform blocks are all nothing, whatever was written or measured, and nothing
/// comes of them together.
pub proof fn law_skipped_residual_is_nothing(blocks: Seq<TxBlock>, written: Seq<bool>, dists: Seq<u64>)
    requires
        written.len() == blocks.len(),
        dists.len() == blocks.len(),
        forall|i: int| 0 <= i < blocks.len() ==> (#[trigger] blocks[i]).skip,
    ensures
        ({
            let results = Seq::new(blocks.len(), |i: int| block_result(blocks[i], written[i], dists[i]));
            &&& all_skipped(results)
            &&& !any_coefficient(results)
            &&& total_distortion(results, results.len() as int) == 0
        }),
{
    let results = Seq::new(blocks.len(), |i: int| block_result(blocks[i], written[i], dists[i]));
    assert forall|i: int| 0 <= i < results.len() implies #[trigger] results[i] == (false, 0u64) by {
        assert(blocks[i].skip);
    }
    lemma_skipped_total(results, results.len() as int);
}

proof fn lemma_skipped_total(s: Seq<(bool, u64)>, n: int)
    requires
        0 <= n <= s.len(),
        all_skipped(s),
    ensures
        total_distortion(s, n) == 0,
    decreases n,
{
    if n > 0 {
        lemma_skipped_total(s, n - 1);
        assert(s[n - 1] == (false, 0u64));
    }
}

/// The result of an intra block's residual: that of its transform blocks, in the order
/// of its steps, and of the luma that it took over. A skipped block that took nothing
/// over has neither coefficients nor distortion.
pub fn tx_blocks_result(skip: bool, luma_reuse: Option<LumaReuse>, results: &[(bool, u64)]) -> (r: (bool, u64))
    requires
        skip ==> all_skipped(results@),
        total_distortion(results@, results.len() as int) + (match luma_reuse {
            Some(LumaReuse { cached: Some((_, dist, _)) }) => dist as int,
            _ => 0,
        }) <= u64::MAX,
    ensures
        match luma_reuse {
            Some(LumaReuse { cached: Some((_, dist, has_coeff)) }) => {
                &&& r.0 == (has_coeff || any_coefficient(results@))
                &&& r.1 == dist + total_distortion(results@, results.len() as int)
            },
            _ => {
                &&& r.0 == any_coefficient(results@)
                &&& r.1 == total_distortion(results@, results.len() as int)
            },
        },
        skip && !takes_over(luma_reuse) ==> r == (false, 0u64),
{
    let (any, dist): (bool, u64) = combine_results(results);
    proof {
        if skip {
            lemma_skipped_total(results@, results.len() as int);
        }
    }
    match luma_reuse {
        Some(LumaReuse { cached: Some((_, kept, has_coeff)) }) => (has_coeff || any, kept + dist),
        _ => (any, dist),
    }
}

/// The luma results that later trials take over: how far the writer moved on, and the
/// results of the luma transform blocks together.
pub fn cache_luma(tell_before: u32, tell_after: u32, results: &[(bool, u64)]) -> (r: LumaReuse)
    requires
        tell_before <= tell_after,
        total_distortion(results@, results.len() as int) <= u64::MAX,
    ensures
        r.cached matches Some((rate, dist, has_coeff)) && rate == tell_after - tell_before && dist == total_distortion(
            results@,
            results.len() as int,
        ) && has_coeff == any_coefficient(results@),
{
    let (any, dist): (bool, u64) = combine_results(results);
    LumaReuse { cached: Some((tell_after - tell_before, dist, any)) }
}

/// The luma transform blocks tile their block: every unit of the block lies in
/// exactly the one that raster order says.
pub proof fn law_transforms_tile_the_block(b: ResidualBlock, x: int, y: int)
    requires
        b.wf(),
        b.bo.x <= x < b.bo.x + b.bsize.w() / 4,
        b.bo.y <= y < b.bo.y + b.bsize.h() / 4,
    ensures
        ({
            let tw = b.tx_size.w() / 4;
            let th = b.tx_size.h() / 4;
            let k = ((y - b.bo.y) / th) * b.luma_cols() + (x - b.bo.x) / tw;
            &&& 0 <= k < b.luma_cols() * b.luma_rows()
            &&& in_transform(b, k, x, y)
            &&& forall|j: int| 0 <= j < b.luma_cols() * b.luma_rows() && #[trigger] in_transform(b, j, x, y) ==> j == k
        }),
{
    crate::context::transform_unit::lemma_sub_counts(b.bsize, b.tx_size);
    let tw = b.tx_size.w() / 4;
    let th = b.tx_size.h() / 4;
    let cols = b.luma_cols();
    let rows = b.luma_rows();
    let cx = (x - b.bo.x) / tw;
    let cy = (y - b.bo.y) / th;
    let k = cy * cols + cx;
    lemma_quotient(x - b.bo.x, tw, cols);
    lemma_quotient(y - b.bo.y, th, rows);
    crate::plane::lemma_raster(cx, cy, cols, rows);
    assert(rows * cols == cols * rows) by (nonlinear_arith);
    assert(0 <= cx * tw <= 256 && 0 <= cy * th <= 256) by (nonlinear_arith)
        requires 0 <= cx <= 16, 0 <= cy <= 16, 0 <= tw <= 16, 0 <= th <= 16;
    assert(in_transform(b, k, x, y));
    assert forall|j: int| 0 <= j < cols * rows && #[trigger] in_transform(b, j, x, y) implies j == k by {
        let jx = j % cols;
        let jy = j / cols;
        vstd::arithmetic::div_mod::lemma_fundamental_div_mod(j, cols);
        assert(0 <= jy < rows) by (nonlinear_arith)
            requires 0 <= j < cols * rows, j == cols * jy + jx, 0 <= jx < cols, cols > 0;
        assert(0 <= jx * tw <= 256 && 0 <= jy * th <= 256) by (nonlinear_arith)
            requires 0 <= jx <= 16, 0 <= jy <= 16, 0 <= tw <= 16, 0 <= th <= 16;
        lemma_same_cell(x - b.bo.x, tw, jx);
        lemma_same_cell(y - b.bo.y, th, jy);
        assert(cols * jy == jy * cols) by (nonlinear_arith);
    }
}

/// The unit lies in the `k`-th luma transform block.
pub open spec fn in_transform(b: ResidualBlock, k: int, x: int, y: int) -> bool {
    let o = b.luma_bo(k);
    o.x <= x < o.x + b.tx_size.w() / 4 && o.y <= y < o.y + b.tx_size.h() / 4
}

proof fn lemma_quotient(v: int, d: int, n: int)
    requires
        d > 0,
        0 <= v < n * d,
    ensures
        0 <= v / d < n,
        (v / d) * d <= v < (v / d) * d + d,
{
    vstd::arithmetic::div_mod::lemma_fundamental_div_mod(v, d);
    let q = v / d;
    assert(0 <= q < n && q * d <= v < q * d + d) by (nonlinear_arith)
        requires v == d * q + v % d, 0 <= v % d < d, 0 <= v < n * d, d > 0;
}

proof fn lemma_same_cell(v: int, d: int, q: int)
    requires
        d > 0,
        q * d <= v < q * d + d,
    ensures
        v / d == q,
{
    vstd::arithmetic::div_mod::lemma_fundamental_div_mod_converse(v, d, q, v - q * d);
}

/// The motion that a quick cost of a block is based on.
#[derive(Clone, Copy, Debug, PartialEq, Eq, Structural)]
pub struct Pd0Motion {
    pub mode: PredictionMode,
    pub mv: MotionVector,
    /// The candidate that a new vector is coded against.
    pub pmv: MotionVector,
}

/// The first candidates, zero where there is none.
pub open spec fn pd0_candidate(stack: Seq<CandidateMV>, i: int) -> MotionVector {
    if i < stack.len() { stack[i].this_mv } else { MotionVector { row: 0, col: 0 } }
}

/// The candidates that a quick motion search starts from.
pub fn pd0_candidates(stack: &[CandidateMV]) -> (r: [MotionVector; 2])
    ensures
        r@[0] == pd0_candidate(stack@, 0),
        r@[1] == pd0_candidate(stack@, 1),
{
    let zero: MotionVector = MotionVector { row: 0, col: 0 };
    [if stack.len() > 0 { stack[0].this_mv } else { zero }, if stack.len() > 1 { stack[1].this_mv } else { zero }]
}

/// The motion of a quick cost: a new vector where the search found one, else that of
/// the first candidate.
pub fn pd0_motion(stack: &[CandidateMV], found: Option<MotionVector>) -> (r: Pd0Motion)
    ensures
        r.pmv == pd0_candidate(stack@, 0),
        match found {
            Some(mv) => r.mode == PredictionMode::NEWMV && r.mv == mv,
            None => r.mode == PredictionMode::NEARESTMV && r.mv == r.pmv,
        },
{
    let pmv: MotionVector = pd0_candidates(stack)[0];
    match found {
        Some(mv) => Pd0Motion { mode: PredictionMode::NEWMV, mv, pmv },
        None => Pd0Motion { mode: PredictionMode::NEARESTMV, mv: pmv, pmv },
    }
}

/// The transform that a quick cost tiles a block by: the largest, split once where
/// inter transforms may be.
pub open spec fn pd0_tx_size(bsize: BlockSize, split: bool) -> TxSize {
    let t = crate::encoder::block::largest_tx(bsize);
    if split { t.sub() } else { t }
}

/// The steps of a quick cost: the quantizer is set up for an inter block, and every
/// transform block inside the tile follows.
pub open spec fn pd0_steps(b: ResidualBlock) -> Seq<ResidualStep> {
    seq![
        ResidualStep::UpdateQuantizer {
            plane: 0,
            tx_size: b.tx_size,
            is_intra: false,
            dc_delta_q: b.dc_delta_q@[0],
            ac_delta_q: b.ac_delta_q@[0],
        },
    ] + b.luma_calls(b.luma_cols() * b.luma_rows(), true)
}

/// The block of a quick cost: luma alone, in the largest transforms.
pub open spec fn pd0_block(bo: TileBlockOffset, bsize: BlockSize, mi_width: usize, mi_height: usize, split: bool, mode: PredictionMode, dc_delta_q: i8, ac_delta_q: i8) -> ResidualBlock {
    ResidualBlock {
        bo,
        bsize,
        mi_width,
        mi_height,
        xdec: 0,
        ydec: 0,
        chroma_sampling: ChromaSampling::Cs400,
        luma_mode: mode,
        chroma_mode: mode,
        tx_size: pd0_tx_size(bsize, split),
        tx_type: TxType::DCT_DCT,
        dc_delta_q: [dc_delta_q, 0i8, 0i8],
        ac_delta_q: [ac_delta_q, 0i8, 0i8],
        luma_only: true,
    }
}

/// The steps whose distortion and rate make up the quick cost of a block; none of a
/// block outside the tile, which costs nothing.
pub fn pd0_real_cost(
    bo: TileBlockOffset,
    bsize: BlockSize,
    mi_width: usize,
    mi_height: usize,
    enable_inter_txfm_split: bool,
    mode: PredictionMode,
    dc_delta_q: i8,
    ac_delta_q: i8,
) -> (r: Vec<ResidualStep>)
    requires
        bsize.wl() <= 6,
        bsize.hl() <= 6,
        bo.x <= 0x1000_0000,
        bo.y <= 0x1000_0000,
    ensures
        r@ == if bo.x >= mi_width || bo.y >= mi_height {
            Seq::empty()
        } else {
            pd0_steps(pd0_block(bo, bsize, mi_width, mi_height, enable_inter_txfm_split, mode, dc_delta_q, ac_delta_q))
        },
{
    let mut out: Vec<ResidualStep> = Vec::new();
    if bo.x >= mi_width || bo.y >= mi_height {
        assert(out@ =~= Seq::<ResidualStep>::empty());
        return out;
    }
    let first: TxSize = bsize.tx_size();
    proof {
        crate::transform::lemma_tx_size_by_log2(first, crate::encoder::block::largest_tx(bsize));
    }
    let tx_size: TxSize = if enable_inter_txfm_split { first.sub_size() } else { first };
    let b: ResidualBlock = ResidualBlock {
        bo,
        bsize,
        mi_width,
        mi_height,
        xdec: 0,
        ydec: 0,
        chroma_sampling: ChromaSampling::Cs400,
        luma_mode: mode,
        chroma_mode: mode,
        tx_size,
        tx_type: TxType::DCT_DCT,
        dc_delta_q: [dc_delta_q, 0, 0],
        ac_delta_q: [ac_delta_q, 0, 0],
        luma_only: true,
    };
    out.push(ResidualStep::UpdateQuantizer { plane: 0, tx_size, is_intra: false, dc_delta_q, ac_delta_q });
    b.push_luma(&mut out, true);
    assert(out@ =~= pd0_steps(b));
    out
}

/// The rate of a block's own symbols in a quick cost, in eighths of a bit: the bits of a
/// new vector, and four more.
pub fn pd0_block_rate(mode: PredictionMode, mv_bits: u32) -> (r: u64)
    ensures
        r == ((if mode == PredictionMode::NEWMV { mv_bits as int } else { 0 }) + 4) * 8,
{
    let bits: u64 = if mode == PredictionMode::NEWMV { mv_bits as u64 } else { 0 };
    (bits + 4) * 8
}

/// The rates of the first `n` transform blocks of a quick cost together.
pub open spec fn quick_rate(s: Seq<(u64, u64)>, n: int) -> int
    decreases n,
{
    if n <= 0 { 0 } else { quick_rate(s, n - 1) + s[n - 1].0 }
}

/// The distortions of the first `n` transform blocks of a quick cost together.
pub open spec fn quick_distortion(s: Seq<(u64, u64)>, n: int) -> int
    decreases n,
{
    if n <= 0 { 0 } else { quick_distortion(s, n - 1) + s[n - 1].1 }
}

/// The rate and the distortion that a quick cost is computed from: those of the
/// transform blocks, given as pairs, and the block's own rate. The rate is held to 32
/// bits by dropping the rest.
pub fn pd0_totals(block_rate: u64, blocks: &[(u64, u64)]) -> (r: (u32, u64))
    requires
        block_rate + quick_rate(blocks@, blocks.len() as int) <= u64::MAX,
        quick_distortion(blocks@, blocks.len() as int) <= u64::MAX,
    ensures
        r.0 == (block_rate + quick_rate(blocks@, blocks.len() as int)) % 0x1_0000_0000,
        r.1 == quick_distortion(blocks@, blocks.len() as int),
{
    let mut rate: u64 = 0;
    let mut dist: u64 = 0;
    let mut i: usize = 0;
    while i < blocks.len()
        invariant
            i <= blocks.len(),
            rate == quick_rate(blocks@, i as int),
            dist == quick_distortion(blocks@, i as int),
            block_rate + quick_rate(blocks@, blocks.len() as int) <= u64::MAX,
            quick_distortion(blocks@, blocks.len() as int) <= u64::MAX,
        decreases blocks.len() - i,
    {
        proof {
            lemma_quick_grows(blocks@, i + 1, blocks.len() as int);
        }
        let (r, d): (u64, u64) = blocks[i];
        rate = rate + r;
        dist = dist + d;
        i = i + 1;
    }
    (((rate + block_rate) % 0x1_0000_0000) as u32, dist)
}

proof fn lemma_quick_grows(s: Seq<(u64, u64)>, m: int, n: int)
    requires
        0 <= m <= n,
    ensures
        quick_rate(s, m) <= quick_rate(s, n),
        quick_distortion(s, m) <= quick_distortion(s, n),
    decreases n - m,
{
    if m < n {
        lemma_quick_grows(s, m, n - 1);
    }
}

/// The coefficients of the transforms with a side of 64 and another of 32 or more are
/// halved twice, those of the other large ones once.
pub proof fn law_large_transforms_are_halved(t: TxSize)
    ensures
        log_tx_scale(t) == 2 <==> t == TxSize::TX_64X64 || t == TxSize::TX_64X32 || t == TxSize::TX_32X64,
        log_tx_scale(t) == 1 <==> t == TxSize::TX_32X32 || t == TxSize::TX_16X32 || t == TxSize::TX_32X16 || t == TxSize::TX_16X64 || t
            == TxSize::TX_64X16,
        0 <= log_tx_scale(t) <= 2,
{
    crate::transform::law_transforms_have_their_names(t);
}

/// Coefficients are squared as they are off: nothing where all were kept, and the square of
/// the error where one is off. Errors at two places add up.
pub proof fn law_errors_are_squared(coeffs: Seq<i32>, rcoeffs: Seq<i32>, n: int, i: int)
    requires
        0 <= i < n <= coeffs.len(),
    ensures
        (forall|k: int| 0 <= k < n ==> #[trigger] error_at(coeffs, rcoeffs, k) == 0) ==> squared_error(coeffs, rcoeffs, n) == 0,
        (forall|k: int| 0 <= k < n && k != i ==> #[trigger] error_at(coeffs, rcoeffs, k) == 0) ==> squared_error(coeffs, rcoeffs, n) == error_at(
            coeffs,
            rcoeffs,
            i,
        ) * error_at(coeffs, rcoeffs, i),
        squared_error(coeffs, rcoeffs, n) >= error_at(coeffs, rcoeffs, i) * error_at(coeffs, rcoeffs, i),
        i < rcoeffs.len() ==> error_at(coeffs, rcoeffs, i) == coeffs[i] - rcoeffs[i],
        i >= rcoeffs.len() ==> error_at(coeffs, rcoeffs, i) == coeffs[i],
    decreases n,
{
    let e = error_at(coeffs, rcoeffs, n - 1);
    assert(e * e >= 0) by (nonlinear_arith);
    assert(e == 0 ==> e * e == 0) by (nonlinear_arith);
    lemma_errors_not_negative(coeffs, rcoeffs, n - 1);
    if i < n - 1 {
        law_errors_are_squared(coeffs, rcoeffs, n - 1, i);
    } else if n > 1 {
        law_errors_are_squared(coeffs, rcoeffs, n - 1, 0);
    }
}

proof fn lemma_errors_not_negative(coeffs: Seq<i32>, rcoeffs: Seq<i32>, n: int)
    ensures
        squared_error(coeffs, rcoeffs, n) >= 0,
    decreases n,
{
    if n > 0 {
        lemma_errors_not_negative(coeffs, rcoeffs, n - 1);
        let e = error_at(coeffs, rcoeffs, n - 1);
        assert(e * e >= 0) by (nonlinear_arith);
    }
}

/// The distortion of coefficients is that of samples: a 64th of their squared error, a 16th
/// where they are halved once and a quarter where they are halved twice, to the nearest and
/// up from the middle.
pub proof fn law_distortion_is_scaled(coeffs: Seq<i32>, rcoeffs: Seq<i32>, t: TxSize)
    ensures
        ({
            let unit = if log_tx_scale(t) == 0 { 64int } else if log_tx_scale(t) == 1 { 16 } else { 4 };
            let e = squared_error(coeffs, rcoeffs, coeffs.len() as int);
            -unit <= 2 * (e - unit * tx_distortion(coeffs, rcoeffs, t)) < unit
        }),
{
    lemma2_to64();
    let bits = (2 * (3 - log_tx_scale(t))) as nat;
    let d = pow2(bits) as int;
    let h = pow2((bits - 1) as nat) as int;
    let e = squared_error(coeffs, rcoeffs, coeffs.len() as int);
    let q = (e + h) / d;
    lemma_pow2_pos(bits);
    vstd::arithmetic::div_mod::lemma_fundamental_div_mod(e + h, d);
    vstd::arithmetic::div_mod::lemma_mod_bound(e + h, d);
    if log_tx_scale(t) == 0 {
        assert(d == 64 && h == 32);
        assert(d * q == 64 * q);
    } else if log_tx_scale(t) == 1 {
        assert(d == 16 && h == 8);
        assert(d * q == 16 * q);
    } else {
        assert(d == 4 && h == 2);
        assert(d * q == 4 * q);
    }
}

/// The visible part of a side holds exactly the samples that lie before the frame's edge.
pub proof fn law_visible_sides_end_at_the_frame(pos: int, side: int, frame: int, k: int)
    requires
        0 <= pos,
        0 <= side,
        0 <= frame,
        0 <= k < side,
    ensures
        0 <= visible_side(pos, side, frame) <= side,
        k < visible_side(pos, side, frame) <==> pos + k < frame,
{
}

/// A transform block is visible if its luma corner lies inside the frame, on every plane.
pub proof fn law_visible_blocks_start_in_the_frame(b: TxBlock)
    requires
        b.wf(),
    ensures
        b.is_visible() <==> 4 * b.frame_x < b.width && 4 * b.frame_y < b.height,
{
    lemma_visible(b.frame_x as int, b.tx_size.w(), b.width as int, b.xdec as int);
    lemma_visible(b.frame_y as int, b.tx_size.h(), b.height as int, b.ydec as int);
}

proof fn lemma_visible(f: int, side: int, frame: int, dec: int)
    requires
        side > 0,
        0 <= dec <= 1,
    ensures
        visible_side(scaled(f * 4, dec), side, scaled(frame + dec, dec)) != 0 <==> 4 * f < frame,
{
}

/// What is done with a transform block up to its coefficients: nothing outside the tile;
/// inside, the edge filter and the prediction come first, where there are any, and unless
/// the block is skipped a residual, its transform and its quantizing come last.
pub proof fn law_transform_blocks_start_in_order(b: TxBlock)
    ensures
        ({
            let s = b.start_steps();
            let edge = b.mode.directional() && b.enable_intra_edge_filter;
            let predicted = !b.mode.inter();
            let n = (if edge { 1int } else { 0 }) + (if predicted { 1int } else { 0 });
            &&& b.outside() ==> s.len() == 0
            &&& !b.outside() ==> {
                &&& s.len() == n + if b.skip { 0int } else { 3 }
                &&& edge ==> s[0] == TxBlockStep::EdgeFilter
                &&& predicted ==> s[n - 1] == TxBlockStep::PredictIntra
                &&& !b.skip && b.is_visible() ==> s[n] == TxBlockStep::Diff
                &&& !b.skip && !b.is_visible() ==> s[n] == TxBlockStep::ZeroResidual
                &&& !b.skip ==> s[n + 1] == TxBlockStep::ForwardTransform && s[n + 2] == TxBlockStep::Quantize
            }
        }),
{
}

/// What is done with the coefficients of a transform block: they are written unless only an
/// estimate is asked for, always dequantized, transformed back if there are any and samples
/// are wanted, and measured where something is visible and no samples are.
pub proof fn law_transform_blocks_finish_in_order(b: TxBlock, eob: int)
    requires
        b.wf(),
    ensures
        ({
            let s = b.finish_steps(eob);
            let written = b.need_recon_pixel || b.rdo_type == RDOType::PixelDistRealRate || b.rdo_type == RDOType::TxDistRealRate;
            let back = eob != 0 && (b.need_recon_pixel || !b.use_tx_domain_distortion);
            let measured = 4 * b.frame_x < b.width && 4 * b.frame_y < b.height && (b.rdo_type == RDOType::TxDistRealRate || b.rdo_type
                == RDOType::TxDistEstRate);
            let estimated = measured && b.rdo_type == RDOType::TxDistEstRate;
            let n = if written { 1int } else { 0 };
            let m = n + 1 + if back { 1int } else { 0 };
            &&& s.len() == m + (if measured { 1int } else { 0 }) + (if estimated { 1int } else { 0 })
            &&& written ==> s[0] is WriteCoeffs
            &&& s[n] == TxBlockStep::Dequantize
            &&& back ==> s[n + 1] == TxBlockStep::InverseTransformAdd
            &&& measured ==> s[m] == TxBlockStep::TxDistortion
            &&& estimated ==> s[m + 1] == TxBlockStep::EstimateRate
        }),
{
    law_visible_blocks_start_in_the_frame(b);
}

/// Of the coefficients those are written that belong to the frame's padded area, or all of
/// the transform where that is less: four luma samples to a unit, or two samples of a plane
/// at half resolution.
pub proof fn law_written_coefficients_end_at_the_frame(b: TxBlock, eob: int)
    requires
        b.wf(),
        b.need_recon_pixel,
    ensures
        ({
            let s = b.finish_steps(eob)[0];
            let w = (if b.xdec == 0 { 4int } else { 2 }) * (b.w_in_b - b.frame_x);
            let h = (if b.ydec == 0 { 4int } else { 2 }) * (b.h_in_b - b.frame_y);
            &&& s is WriteCoeffs
            &&& s->width <= w && s->width <= b.tx_size.w()
            &&& s->width == w || s->width == b.tx_size.w()
            &&& s->height <= h && s->height <= b.tx_size.h()
            &&& s->height == h || s->height == b.tx_size.h()
        }),
{
}

/// The transform block of a step lies at its tile's place in the frame; luma is never
/// subsampled, chroma as the frame says.
pub proof fn law_steps_have_their_place(c: TxCall, at: TxPlace, skip: bool)
    requires
        at.tile_x <= 0x1000_0000,
        at.tile_y <= 0x1000_0000,
        c.tx_bo.x <= 0x1000_0000,
        c.tx_bo.y <= 0x1000_0000,
    ensures
        ({
            let b = c.block_at(at, skip);
            &&& b.frame_x - at.tile_x == c.tx_bo.x && b.frame_y - at.tile_y == c.tx_bo.y
            &&& b.tx_bo == c.tx_bo && b.tx_size == c.tx_size && b.tx_type == c.tx_type && b.mode == c.mode
            &&& c.plane == 0 ==> b.xdec == 0 && b.ydec == 0
            &&& c.plane > 0 ==> b.xdec == at.xdec && b.ydec == at.ydec
            &&& b.skip == skip && b.bsize == at.bsize
            &&& b.mi_width == at.mi_width && b.mi_height == at.mi_height
            &&& b.width == at.width && b.height == at.height && b.w_in_b == at.w_in_b && b.h_in_b == at.h_in_b
            &&& b.rdo_type == at.rdo_type && b.need_recon_pixel == at.need_recon_pixel
            &&& b.use_tx_domain_distortion == at.use_tx_domain_distortion
            &&& b.enable_intra_edge_filter == at.enable_intra_edge_filter
        }),
{
}

/// The chroma transform has the sides of the block on its plane, but at least four samples
/// and at most 32.
pub proof fn law_chroma_transforms_fit_their_plane(bsize: BlockSize, xdec: int, ydec: int)
    requires
        bsize.subsamples(xdec, ydec),
    ensures
        ({
            let t = uv_tx_size(bsize, xdec, ydec);
            let w = if xdec == 1 { bsize.w() / 2 } else { bsize.w() };
            let h = if ydec == 1 { bsize.h() / 2 } else { bsize.h() };
            &&& t.w() == if w < 4 { 4 } else if w > 32 { 32 } else { w }
            &&& t.h() == if h < 4 { 4 } else if h > 32 { 32 } else { h }
        }),
{
    crate::partition::law_blocks_have_their_names(bsize);
    let t = uv_tx_size(bsize, xdec, ydec);
    crate::transform::law_transforms_have_their_names(t);
}

/// Every luma transform block inside the tile is coded, at the samples of its corner.
pub proof fn law_every_luma_transform_is_coded(b: ResidualBlock, n: int, k: int, placed: bool)
    requires
        b.wf(),
        0 <= k < n <= b.luma_cols() * b.luma_rows(),
        b.luma_bo(k).x < b.mi_width,
        b.luma_bo(k).y < b.mi_height,
    ensures
        exists|i: int|
            0 <= i < b.luma_calls(n, placed).len() && (#[trigger] b.luma_calls(n, placed)[i] matches ResidualStep::Encode(c) && c.tx_bo == b.luma_bo(k) && c.x
                == 4 * c.tx_bo.x && c.y == 4 * c.tx_bo.y && c.plane == 0 && c.tx_size == b.tx_size && (placed ==> b.bo.x + c.bx * (b.tx_size.w() / 4)
                == c.tx_bo.x && b.bo.y + c.by * (b.tx_size.h() / 4) == c.tx_bo.y) && (!placed ==> c.bx == 0 && c.by == 0)),
    decreases n,
{
    if k < n - 1 {
        law_every_luma_transform_is_coded(b, n - 1, k, placed);
        let i = choose|i: int|
            0 <= i < b.luma_calls(n - 1, placed).len() && (#[trigger] b.luma_calls(n - 1, placed)[i] matches ResidualStep::Encode(c) && c.tx_bo == b.luma_bo(k)
                && c.x == 4 * c.tx_bo.x && c.y == 4 * c.tx_bo.y && c.plane == 0 && c.tx_size == b.tx_size && (placed ==> b.bo.x + c.bx * (b.tx_size.w() / 4)
                == c.tx_bo.x && b.bo.y + c.by * (b.tx_size.h() / 4) == c.tx_bo.y) && (!placed ==> c.bx == 0 && c.by == 0));
        assert(b.luma_calls(n, placed)[i] == b.luma_calls(n - 1, placed)[i]);
    } else {
        lemma_luma_place(b, k);
        let i = b.luma_calls(n - 1, placed).len() as int;
        assert(b.luma_calls(n, placed)[i] == ResidualStep::Encode(b.luma_call(k, placed)));
    }
}

/// The corner of a luma transform block is as many transforms away from the block's.
proof fn lemma_luma_place(b: ResidualBlock, k: int)
    requires
        b.wf(),
        0 <= k < b.luma_cols() * b.luma_rows(),
    ensures
        ({
            let x = k % b.luma_cols();
            let y = k / b.luma_cols();
            &&& 0 <= x < 16 && 0 <= y < 16
            &&& b.luma_bo(k).x == b.bo.x + x * (b.tx_size.w() / 4)
            &&& b.luma_bo(k).y == b.bo.y + y * (b.tx_size.h() / 4)
            &&& b.luma_bo(k).x <= 0x1000_0100
            &&& b.luma_bo(k).y <= 0x1000_0100
        }),
{
    crate::context::transform_unit::lemma_sub_counts(b.bsize, b.tx_size);
    let cols = b.luma_cols();
    let rows = b.luma_rows();
    let tw = b.tx_size.w() / 4;
    let th = b.tx_size.h() / 4;
    let x = k % cols;
    let y = k / cols;
    assert(0 <= x < cols && 0 <= y < rows) by (nonlinear_arith)
        requires 0 <= k < cols * rows, cols >= 1, x == k % cols, y == k / cols,
    ;
    assert(0 <= x * tw <= 256 && 0 <= y * th <= 256) by (nonlinear_arith)
        requires 0 <= x < 16, 0 <= y < 16, 1 <= tw <= 16, 1 <= th <= 16,
    ;
}

/// A chroma transform block covers the samples that belong to its luma: the corner that it
/// has in luma, taken to the plane, is where it starts. Blocks follow each other row by row.
pub proof fn law_chroma_transforms_lie_on_their_luma(b: ResidualBlock, p: int, k: int, mode: PredictionMode, tx_type: TxType)
    requires
        b.wf(),
        1 <= p <= 2,
        b.with_chroma(),
        b.bsize.w() > 4 && b.xdec == 1 ==> b.bo.x % 2 == 0,
        b.bsize.h() > 4 && b.ydec == 1 ==> b.bo.y % 2 == 0,
        0 <= k < b.uv_cols() * b.uv_rows(),
    ensures
        ({
            let c = b.uv_call(p, k, mode, tx_type);
            let w = uv_tx_size(b.bsize, b.xdec as int, b.ydec as int).w();
            let h = uv_tx_size(b.bsize, b.xdec as int, b.ydec as int).h();
            &&& c.plane == p && c.mode == mode && c.tx_type == tx_type
            &&& (1 + b.xdec) * c.x == 4 * c.tx_bo.x
            &&& (1 + b.ydec) * c.y == 4 * c.tx_bo.y
            &&& c.by * b.uv_cols() + c.bx == k
            &&& c.bx < b.uv_cols()
            &&& c.x == plane_pos(b.bo.x as int, b.xdec as int) + c.bx * w
            &&& c.y == plane_pos(b.bo.y as int, b.ydec as int) + c.by * h
        }),
{
    let (xdec, ydec) = (b.xdec as int, b.ydec as int);
    law_chroma_transforms_fit_their_plane(b.bsize, xdec, ydec);
    crate::partition::law_blocks_have_their_names(b.bsize);
    crate::context::transform_unit::law_first_parts_carry_no_chroma(b.bo, b.bsize, xdec, ydec, b.chroma_sampling);
    let uv = uv_tx_size(b.bsize, xdec, ydec);
    crate::transform::law_transforms_have_their_names(uv);
    let cols = b.uv_cols();
    let rows = b.uv_rows();
    let (tw, th) = (uv.w() / 4, uv.h() / 4);
    let (u, v) = uv_units(b);
    lemma_div_at_most(u, tw);
    lemma_div_at_most(v, th);
    assert(cols >= 1 && rows >= 1) by (nonlinear_arith)
        requires 0 <= k < cols * rows, cols >= 0, rows >= 0;
    let bx = k % cols;
    let by = k / cols;
    vstd::arithmetic::div_mod::lemma_fundamental_div_mod(k, cols);
    assert(0 <= bx < cols && 0 <= by < rows) by (nonlinear_arith)
        requires 0 <= k < cols * rows, cols >= 1, bx == k % cols, by == k / cols,
    ;
    assert(cols * by == by * cols) by (nonlinear_arith);
    assert(0 <= bx * tw <= 1024 && 0 <= by * th <= 1024) by (nonlinear_arith)
        requires 0 <= bx <= 32, 0 <= by <= 32, 1 <= tw <= 16, 1 <= th <= 16,
    ;
    assert(bx * uv.w() == 4 * (bx * tw) && by * uv.h() == 4 * (by * th)) by (nonlinear_arith)
        requires uv.w() == 4 * tw, uv.h() == 4 * th;
    assert(bx * tw * 2 == 2 * (bx * tw) && by * th * 2 == 2 * (by * th)) by (nonlinear_arith);
    assert(bx * tw * 1 == bx * tw && by * th * 1 == by * th) by (nonlinear_arith);
    if b.bsize.w() == 4 && xdec == 1 {
        assert(tw == 1 && u == 1);
        assert(bx == 0);
    }
    if b.bsize.h() == 4 && ydec == 1 {
        assert(th == 1 && v == 1);
        assert(by == 0);
    }
}

/// Chroma is coded plane by plane: the quantizer is set to the plane's own offsets before
/// the transform blocks of that plane.
pub proof fn law_chroma_planes_have_their_quantizers(b: ResidualBlock, is_intra: bool, mode: PredictionMode, tx_type: TxType)
    requires
        b.with_chroma(),
        b.uv_cols() * b.uv_rows() >= 0,
    ensures
        ({
            let s = b.uv_steps(is_intra, mode, tx_type);
            let n = b.uv_cols() * b.uv_rows();
            &&& s.len() == 2 * (n + 1)
            &&& s[0] matches ResidualStep::UpdateQuantizer { plane, is_intra: i, dc_delta_q, ac_delta_q, .. } && plane == 1 && i == is_intra && dc_delta_q
                == b.dc_delta_q@[1] && ac_delta_q == b.ac_delta_q@[1]
            &&& s[n + 1] matches ResidualStep::UpdateQuantizer { plane, is_intra: i, dc_delta_q, ac_delta_q, .. } && plane == 2 && i == is_intra && dc_delta_q
                == b.dc_delta_q@[2] && ac_delta_q == b.ac_delta_q@[2]
            &&& forall|k: int| 0 <= k < n ==> #[trigger] s[1 + k] == ResidualStep::Encode(b.uv_call(1, k, mode, tx_type))
            &&& forall|k: int| 0 <= k < n ==> #[trigger] s[n + 2 + k] == ResidualStep::Encode(b.uv_call(2, k, mode, tx_type))
        }),
{
    let n = b.uv_cols() * b.uv_rows();
    lemma_uv_order(b, 1, n, mode, tx_type);
    lemma_uv_order(b, 2, n, mode, tx_type);
    let p1 = b.uv_plane_steps(1, is_intra, mode, tx_type);
    let p2 = b.uv_plane_steps(2, is_intra, mode, tx_type);
    let s = b.uv_steps(is_intra, mode, tx_type);
    assert(s == p1 + p2);
    assert forall|k: int| 0 <= k < n implies #[trigger] s[1 + k] == ResidualStep::Encode(b.uv_call(1, k, mode, tx_type)) by {
        assert(s[1 + k] == b.uv_calls(1, n, mode, tx_type)[k]);
    }
    assert forall|k: int| 0 <= k < n implies #[trigger] s[n + 2 + k] == ResidualStep::Encode(b.uv_call(2, k, mode, tx_type)) by {
        assert(s[n + 2 + k] == p2[1 + k]);
        assert(p2[1 + k] == b.uv_calls(2, n, mode, tx_type)[k]);
    }
}

proof fn lemma_uv_order(b: ResidualBlock, p: int, n: int, mode: PredictionMode, tx_type: TxType)
    requires
        0 <= n,
    ensures
        b.uv_calls(p, n, mode, tx_type).len() == n,
        forall|k: int| 0 <= k < n ==> #[trigger] b.uv_calls(p, n, mode, tx_type)[k] == ResidualStep::Encode(b.uv_call(p, k, mode, tx_type)),
    decreases n,
{
    if n > 0 {
        lemma_uv_order(b, p, n - 1, mode, tx_type);
    }
}

/// Luma is taken over, or coded and kept for later, or only coded: a trial without a store
/// neither takes over nor keeps, and one with an empty store keeps what it coded.
pub proof fn law_luma_is_coded_or_taken_over(b: ResidualBlock, reuse: Option<LumaReuse>)
    ensures
        ({
            let s = intra_luma_steps(b, reuse);
            let n = b.luma_calls(b.luma_cols() * b.luma_rows(), true);
            &&& reuse is None ==> s == n
            &&& reuse matches Some(r) ==> (r.cached is Some ==> s.len() == 1 && s[0] == ResidualStep::ReuseLuma)
            &&& reuse matches Some(r) ==> (r.cached is None ==> s.len() == n.len() + 1 && s.last() == ResidualStep::CacheLuma && s.drop_last() == n)
        }),
{
    let n = b.luma_calls(b.luma_cols() * b.luma_rows(), true);
    assert(n + Seq::<ResidualStep>::empty() =~= n);
    assert((n + seq![ResidualStep::CacheLuma]).drop_last() =~= n);
}

/// The residual of an intra block: the quantizer is set for luma without an offset of its
/// own beside that of the constant term, and the mean of luma is found before chroma that
/// is predicted from it.
pub proof fn law_intra_residual_in_order(b: ResidualBlock, reuse: Option<LumaReuse>)
    ensures
        ({
            let s = tx_blocks_steps(b, reuse);
            let m = 1 + intra_luma_steps(b, reuse).len() as int;
            let from_luma = b.with_chroma() && b.chroma_mode == PredictionMode::UV_CFL_PRED;
            let uv = b.uv_steps(true, b.chroma_mode, b.uv_intra_tx_type());
            &&& s[0] matches ResidualStep::UpdateQuantizer { plane, tx_size, is_intra, dc_delta_q, ac_delta_q } && plane == 0 && tx_size == b.tx_size && is_intra
                == !b.luma_mode.inter() && dc_delta_q == b.dc_delta_q@[0] && ac_delta_q == 0
            &&& from_luma ==> s[m] == ResidualStep::LumaAc
            &&& s.len() == m + (if from_luma { 1int } else { 0 }) + uv.len()
            &&& s.skip(m + if from_luma { 1int } else { 0 }) == uv
            &&& !b.with_chroma() ==> s.len() == m
        }),
{
    let s = tx_blocks_steps(b, reuse);
    let m = 1 + intra_luma_steps(b, reuse).len() as int;
    let from_luma = b.with_chroma() && b.chroma_mode == PredictionMode::UV_CFL_PRED;
    let uv = b.uv_steps(true, b.chroma_mode, b.uv_intra_tx_type());
    assert(s.skip(m + if from_luma { 1int } else { 0 }) =~= uv);
}

/// The distortions of transform blocks add up, in any parts.
pub proof fn law_results_add_up(s: Seq<(bool, u64)>, t: Seq<(bool, u64)>)
    ensures
        total_distortion(s + t, (s + t).len() as int) == total_distortion(s, s.len() as int) + total_distortion(t, t.len() as int),
        any_coefficient(s + t) <==> any_coefficient(s) || any_coefficient(t),
        forall|r: (bool, u64)| #[trigger] total_distortion(seq![r], 1) == r.1,
{
    lemma_total_add(s, t, t.len() as int);
    lemma_total_same(s + t, s, s.len() as int);
    if any_coefficient(s) {
        let i = choose|i: int| 0 <= i < s.len() && (#[trigger] s[i]).0;
        assert((s + t)[i].0);
    }
    if any_coefficient(t) {
        let i = choose|i: int| 0 <= i < t.len() && (#[trigger] t[i]).0;
        assert((s + t)[s.len() + i].0);
    }
    if any_coefficient(s + t) {
        let i = choose|i: int| 0 <= i < (s + t).len() && (#[trigger] (s + t)[i]).0;
        if i < s.len() {
            assert(s[i].0);
        } else {
            assert(t[i - s.len()].0);
        }
    }
    assert forall|r: (bool, u64)| #[trigger] total_distortion(seq![r], 1) == r.1 by {
        reveal_with_fuel(total_distortion, 2);
    }
}

proof fn lemma_total_same(s: Seq<(bool, u64)>, t: Seq<(bool, u64)>, n: int)
    requires
        n <= s.len(),
        n <= t.len(),
        forall|i: int| 0 <= i < n ==> #[trigger] s[i] == t[i],
    ensures
        total_distortion(s, n) == total_distortion(t, n),
    decreases n,
{
    if n > 0 {
        lemma_total_same(s, t, n - 1);
        assert(s[n - 1] == t[n - 1]);
    }
}

proof fn lemma_total_add(s: Seq<(bool, u64)>, t: Seq<(bool, u64)>, n: int)
    requires
        0 <= n <= t.len(),
    ensures
        total_distortion(s + t, s.len() + n) == total_distortion(s + t, s.len() as int) + total_distortion(t, n),
    decreases n,
{
    if n > 0 {
        lemma_total_add(s, t, n - 1);
        assert((s + t)[s.len() + n - 1] == t[n - 1]);
    }
}

/// A quick cost takes luma alone, inside the tile, in the largest transforms that the block
/// holds or, where transforms may be split, in those half as large.
pub proof fn law_quick_costs_take_luma(bo: TileBlockOffset, bsize: BlockSize, mi_width: usize, mi_height: usize, split: bool, mode: PredictionMode, dc: i8, ac: i8)
    requires
        bsize.wl() <= 6,
        bsize.hl() <= 6,
    ensures
        ({
            let b = pd0_block(bo, bsize, mi_width, mi_height, split, mode, dc, ac);
            let s = pd0_steps(b);
            &&& !b.with_chroma()
            &&& b.bo == bo && b.bsize == bsize && b.mi_width == mi_width && b.mi_height == mi_height
            &&& b.luma_mode == mode && b.tx_type == TxType::DCT_DCT
            &&& !split ==> b.tx_size.w() == bsize.w() && b.tx_size.h() == bsize.h()
            &&& split ==> b.tx_size == pd0_tx_size(bsize, false).sub()
            &&& s[0] matches ResidualStep::UpdateQuantizer { plane, tx_size, is_intra, dc_delta_q, ac_delta_q } && plane == 0 && tx_size == b.tx_size && !is_intra
                && dc_delta_q == dc && ac_delta_q == ac
            &&& s.skip(1) == b.luma_calls(b.luma_cols() * b.luma_rows(), true)
        }),
{
    let b = pd0_block(bo, bsize, mi_width, mi_height, split, mode, dc, ac);
    assert(pd0_steps(b).skip(1) =~= b.luma_calls(b.luma_cols() * b.luma_rows(), true));
    crate::partition::law_blocks_have_their_names(bsize);
    crate::transform::law_transforms_have_their_names(pd0_tx_size(bsize, false));
}

} // verus!
