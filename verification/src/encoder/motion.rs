//! Inter prediction of a block: which predictions are made for each plane, and
//! the motion that later searches start from.

use vstd::prelude::*;

use crate::context::block_unit::{Block, TileBlocks};
use crate::context::transform_unit::{chroma_at, has_chroma};
use crate::mc::MotionVector;
use crate::partition::{BlockSize, ChromaSampling, RefType, TileBlockOffset};
use crate::util::{imax, imin};

verus! {

/// A value for each unit of four by four samples of a tile.
pub struct TileGrid<T> {
    pub data: Vec<T>,
    pub cols: usize,
    pub rows: usize,
}

impl<T: Copy> TileGrid<T> {
    /// The values fill the tile.
    pub open spec fn wf(&self) -> bool {
        self.data.len() == self.rows * self.cols
    }

    /// The value at column `x`, row `y`.
    pub open spec fn cell(&self, x: int, y: int) -> T {
        self.data@[y * self.cols + x]
    }

    /// Sets the part of a block that lies inside the tile.
    pub fn fill_block(&mut self, bo: TileBlockOffset, bsize: BlockSize, v: T)
        requires
            old(self).wf(),
            bo.x <= usize::MAX - 32,
            bo.y <= usize::MAX - 32,
        ensures
            final(self).wf(),
            final(self).cols == old(self).cols,
            final(self).rows == old(self).rows,
            forall|x: int, y: int| 0 <= x < old(self).cols && 0 <= y < old(self).rows ==> #[trigger] final(self).cell(x, y) == if bo.x <= x < bo.x
                + bsize.w() / 4 && bo.y <= y < bo.y + bsize.h() / 4 {
                v
            } else {
                old(self).cell(x, y)
            },
    {
        let right: usize = bo.x + bsize.width_mi();
        let bottom: usize = bo.y + bsize.height_mi();
        let x_end: usize = if right < self.cols { right } else { self.cols };
        let y_end: usize = if bottom < self.rows { bottom } else { self.rows };
        let ghost orig = *self;
        let mut y: usize = bo.y;
        while y < y_end
            invariant
                self.wf(),
                self.cols == orig.cols,
                self.rows == orig.rows,
                orig.wf(),
                x_end == imin(right as int, orig.cols as int),
                y_end == imin(bottom as int, orig.rows as int),
                bo.y <= y,
                y <= y_end || y == bo.y,
                bottom == bo.y + bsize.h() / 4,
                right == bo.x + bsize.w() / 4,
                forall|i: int, j: int| 0 <= i < orig.cols && 0 <= j < orig.rows ==> #[trigger] self.cell(i, j) == if bo.x <= i < right && bo.y <= j < y {
                    v
                } else {
                    orig.cell(i, j)
                },
            decreases y_end - y,
        {
            let mut x: usize = bo.x;
            while x < x_end
                invariant
                    self.wf(),
                    self.cols == orig.cols,
                    self.rows == orig.rows,
                    orig.wf(),
                    x_end == imin(right as int, orig.cols as int),
                    bo.y <= y < orig.rows,
                    bo.x <= x,
                    x <= x_end || x == bo.x,
                    right == bo.x + bsize.w() / 4,
                    forall|i: int, j: int| 0 <= i < orig.cols && 0 <= j < orig.rows ==> #[trigger] self.cell(i, j) == if bo.x <= i < right && bo.y <= j < y || j == y
                        && bo.x <= i < x {
                        v
                    } else {
                        orig.cell(i, j)
                    },
                decreases x_end - x,
            {
                proof {
                    crate::plane::lemma_raster(x as int, y as int, orig.cols as int, orig.rows as int);
                    assert(0 <= y * self.cols) by (nonlinear_arith);
                }
                let ghost before = *self;
                let at: usize = y * self.cols + x;
                self.data.set(at, v);
                proof {
                    assert forall|i: int, j: int| 0 <= i < orig.cols && 0 <= j < orig.rows implies #[trigger] self.cell(i, j) == if bo.x <= i < right && bo.y <= j < y || j == y
                        && bo.x <= i < x + 1 {
                        v
                    } else {
                        orig.cell(i, j)
                    } by {
                        crate::plane::lemma_raster(i, j, orig.cols as int, orig.rows as int);
                        if j * orig.cols + i == at {
                            assert(i == x && j == y);
                        } else {
                            assert(self.cell(i, j) == before.cell(i, j));
                        }
                    }
                }
                x = x + 1;
            }
            y = y + 1;
        }
    }
}

/// Keeps the motion of a block for the searches of later blocks.
pub fn save_block_motion(stats: &mut TileGrid<MotionVector>, bsize: BlockSize, tile_bo: TileBlockOffset, mv: MotionVector)
    requires
        old(stats).wf(),
        tile_bo.x <= usize::MAX - 32,
        tile_bo.y <= usize::MAX - 32,
    ensures
        final(stats).wf(),
        final(stats).cols == old(stats).cols,
        final(stats).rows == old(stats).rows,
        forall|x: int, y: int| 0 <= x < old(stats).cols && 0 <= y < old(stats).rows ==> #[trigger] final(stats).cell(x, y) == if tile_bo.x <= x < tile_bo.x
            + bsize.w() / 4 && tile_bo.y <= y < tile_bo.y + bsize.h() / 4 {
            mv
        } else {
            old(stats).cell(x, y)
        },
{
    stats.fill_block(tile_bo, bsize, mv);
}

/// One prediction: a rectangle of a plane, in samples, from references along
/// motion vectors.
#[derive(Clone, Copy, Debug)]
pub struct InterPrediction {
    pub plane: usize,
    pub x: usize,
    pub y: usize,
    pub width: usize,
    pub height: usize,
    pub ref_frames: [RefType; 2],
    pub mvs: [MotionVector; 2],
}

/// An inter block: its place, references and motion vectors.
#[derive(Clone, Copy, Debug)]
pub struct InterBlock {
    pub bsize: BlockSize,
    pub bo: TileBlockOffset,
    pub ref_frames: [RefType; 2],
    pub mvs: [MotionVector; 2],
}

/// Blocks smaller than 8x8 share their chroma with their neighbours.
pub open spec fn below_8x8(bsize: BlockSize) -> bool {
    BlockSize::BLOCK_8X8.exceeds(bsize)
}

/// The sample of a plane at the corner of a unit.
pub open spec fn plane_pos(v: int, dec: int) -> int {
    if dec == 1 { (v / 2) * 4 } else { v * 4 }
}

/// A side of a block on a subsampled plane, at least four samples.
pub open spec fn plane_side(side: int, dec: int) -> int {
    if dec == 1 { imax(side / 2, 4) } else { side }
}

/// One of the neighbours that a block shares its chroma with is predicted within
/// the frame.
pub open spec fn shares_with_intra(blocks: &TileBlocks, b: InterBlock) -> bool {
    let x = b.bo.x as int;
    let y = b.bo.y as int;
    ||| b.bsize.wl() == 2 && !blocks.block(x - 1, y).mode.inter()
    ||| b.bsize.hl() == 2 && !blocks.block(x, y - 1).mode.inter()
    ||| b.bsize == BlockSize::BLOCK_4X4 && !blocks.block(x - 1, y - 1).mode.inter()
}

/// A prediction from a neighbour's references and motion.
pub open spec fn shared(p: int, x: int, y: int, w: int, h: int, from: Block) -> InterPrediction {
    InterPrediction { plane: p as usize, x: x as usize, y: y as usize, width: w as usize, height: h as usize, ref_frames: from.ref_frames, mvs: from.mv }
}

/// A prediction from the block's own references and motion.
pub open spec fn own(p: int, x: int, y: int, w: int, h: int, b: InterBlock) -> InterPrediction {
    InterPrediction { plane: p as usize, x: x as usize, y: y as usize, width: w as usize, height: h as usize, ref_frames: b.ref_frames, mvs: b.mvs }
}

/// The predictions of one plane: as a rule the whole block at once. The chroma of
/// blocks below 8x8 is put together from the motion of all blocks that share it,
/// unless one of them has none.
pub open spec fn plane_predictions(blocks: &TileBlocks, b: InterBlock, p: int, xdec: int, ydec: int) -> Seq<InterPrediction> {
    let x = plane_pos(b.bo.x as int, if p == 0 { 0 } else { xdec });
    let y = plane_pos(b.bo.y as int, if p == 0 { 0 } else { ydec });
    let w = if p == 0 { b.bsize.w() } else { plane_side(b.bsize.w(), xdec) };
    let h = if p == 0 { b.bsize.h() } else { plane_side(b.bsize.h(), ydec) };
    let bx = b.bo.x as int;
    let by = b.bo.y as int;
    if p > 0 && below_8x8(b.bsize) && !shares_with_intra(blocks, b) {
        if b.bsize == BlockSize::BLOCK_4X4 {
            seq![
                shared(p, x, y, 2, 2, blocks.block(bx - 1, by - 1)),
                shared(p, x + 2, y, 2, 2, blocks.block(bx, by - 1)),
                shared(p, x, y + 2, 2, 2, blocks.block(bx - 1, by)),
                own(p, x + 2, y + 2, 2, 2, b),
            ]
        } else if b.bsize == BlockSize::BLOCK_8X4 {
            seq![shared(p, x, y, 4, 2, blocks.block(bx, by - 1)), own(p, x, y + 2, 4, 2, b)]
        } else {
            seq![shared(p, x, y, 2, 4, blocks.block(bx - 1, by)), own(p, x + 2, y, 2, 4, b)]
        }
    } else {
        seq![own(p, x, y, w, h, b)]
    }
}

/// The planes that are predicted: chroma only where the block carries it and it is
/// wanted.
pub open spec fn predicted_planes(b: InterBlock, xdec: int, ydec: int, cs: ChromaSampling, luma_only: bool) -> int {
    if !luma_only && chroma_at(b.bo, b.bsize, xdec, ydec, cs) { 3 } else { 1 }
}

/// The predictions of the first `n` planes.
pub open spec fn block_predictions(blocks: &TileBlocks, b: InterBlock, xdec: int, ydec: int, n: int) -> Seq<InterPrediction>
    decreases n,
{
    if n <= 0 {
        seq![]
    } else {
        block_predictions(blocks, b, xdec, ydec, n - 1) + plane_predictions(blocks, b, n - 1, xdec, ydec)
    }
}

/// The block lies inside the tile, and where it shares its chroma the neighbours
/// exist; the shared chroma of blocks that all have motion is that of half
/// resolution in both directions.
pub open spec fn shareable(blocks: &TileBlocks, b: InterBlock, xdec: int, ydec: int) -> bool {
    &&& b.bo.x < blocks.cols
    &&& b.bo.y < blocks.rows
    &&& below_8x8(b.bsize) ==> {
        &&& b.bsize.wl() == 2 ==> b.bo.x >= 1
        &&& b.bsize.hl() == 2 ==> b.bo.y >= 1
        &&& shares_with_intra(blocks, b) || xdec == 1 && ydec == 1
    }
}

/// Whether a neighbour that the block shares its chroma with has no motion.
fn has_intra_neighbour(blocks: &TileBlocks, b: &InterBlock) -> (r: bool)
    requires
        blocks.wf(),
        b.bo.x < blocks.cols,
        b.bo.y < blocks.rows,
        below_8x8(b.bsize),
        b.bsize.wl() == 2 ==> b.bo.x >= 1,
        b.bsize.hl() == 2 ==> b.bo.y >= 1,
    ensures
        r == shares_with_intra(blocks, *b),
{
    let narrow: bool = b.bsize.width_log2() == 2;
    let flat: bool = b.bsize.height_log2() == 2;
    if narrow && !blocks.at(b.bo.x - 1, b.bo.y).is_inter() {
        return true;
    }
    if flat && !blocks.at(b.bo.x, b.bo.y - 1).is_inter() {
        return true;
    }
    if narrow && flat {
        proof {
            crate::partition::lemma_block_size_by_log2(b.bsize, BlockSize::BLOCK_4X4);
        }
        return !blocks.at(b.bo.x - 1, b.bo.y - 1).is_inter();
    }
    false
}

fn side_on_plane(side: usize, dec: usize) -> (r: usize)
    requires
        dec <= 1,
    ensures
        r == plane_side(side as int, dec as int),
{
    if dec == 1 {
        if side / 2 > 4 { side / 2 } else { 4 }
    } else {
        side
    }
}

fn pos_on_plane(v: usize, dec: usize) -> (r: usize)
    requires
        dec <= 1,
        v <= 0x1000_0000,
    ensures
        r == plane_pos(v as int, dec as int),
{
    if dec == 1 { (v / 2) * 4 } else { v * 4 }
}

/// The predictions that make up an inter block, in order.
pub fn motion_compensate(
    blocks: &TileBlocks,
    b: &InterBlock,
    u_xdec: usize,
    u_ydec: usize,
    chroma_sampling: ChromaSampling,
    luma_only: bool,
) -> (r: Vec<InterPrediction>)
    requires
        blocks.wf(),
        b.bo.x < blocks.cols,
        b.bo.y < blocks.rows,
        b.bo.x <= 0x1000_0000,
        b.bo.y <= 0x1000_0000,
        u_xdec <= 1,
        u_ydec <= 1,
        predicted_planes(*b, u_xdec as int, u_ydec as int, chroma_sampling, luma_only) > 1 ==> shareable(blocks, *b, u_xdec as int, u_ydec as int)
            && b.bsize.subsamples(u_xdec as int, u_ydec as int),
    ensures
        r@ == block_predictions(
            blocks,
            *b,
            u_xdec as int,
            u_ydec as int,
            predicted_planes(*b, u_xdec as int, u_ydec as int, chroma_sampling, luma_only),
        ),
{
    let num_planes: usize = if !luma_only && has_chroma(b.bo, b.bsize, u_xdec, u_ydec, chroma_sampling) { 3 } else { 1 };
    let mut out: Vec<InterPrediction> = Vec::new();
    let mut p: usize = 0;
    while p < num_planes
        invariant
            p <= num_planes <= 3,
            num_planes > 1 ==> shareable(blocks, *b, u_xdec as int, u_ydec as int),
            blocks.wf(),
            b.bo.x < blocks.cols,
            b.bo.y < blocks.rows,
            b.bo.x <= 0x1000_0000,
            b.bo.y <= 0x1000_0000,
            u_xdec <= 1,
            u_ydec <= 1,
            out@ == block_predictions(blocks, *b, u_xdec as int, u_ydec as int, p as int),
        decreases num_planes - p,
    {
        let ghost before = out@;
        push_plane(&mut out, blocks, b, p, u_xdec, u_ydec);
        p = p + 1;
    }
    out
}

/// Adds the predictions of one plane.
fn push_plane(out: &mut Vec<InterPrediction>, blocks: &TileBlocks, b: &InterBlock, p: usize, u_xdec: usize, u_ydec: usize)
    requires
        p <= 2,
        p > 0 ==> shareable(blocks, *b, u_xdec as int, u_ydec as int),
        blocks.wf(),
        b.bo.x < blocks.cols,
        b.bo.y < blocks.rows,
        b.bo.x <= 0x1000_0000,
        b.bo.y <= 0x1000_0000,
        u_xdec <= 1,
        u_ydec <= 1,
    ensures
        final(out)@ == old(out)@ + plane_predictions(blocks, *b, p as int, u_xdec as int, u_ydec as int),
{
    let ghost before = out@;
    let xdec: usize = if p == 0 { 0 } else { u_xdec };
    let ydec: usize = if p == 0 { 0 } else { u_ydec };
    let x: usize = pos_on_plane(b.bo.x, xdec);
    let y: usize = pos_on_plane(b.bo.y, ydec);
    let small: bool = p > 0 && BlockSize::BLOCK_8X8.gt(b.bsize);
    if small && !has_intra_neighbour(blocks, b) {
        if b.bsize == BlockSize::BLOCK_4X4 {
            let above_left: Block = blocks.at(b.bo.x - 1, b.bo.y - 1);
            let above: Block = blocks.at(b.bo.x, b.bo.y - 1);
            let left: Block = blocks.at(b.bo.x - 1, b.bo.y);
            out.push(InterPrediction { plane: p, x, y, width: 2, height: 2, ref_frames: above_left.ref_frames, mvs: above_left.mv });
            out.push(InterPrediction { plane: p, x: x + 2, y, width: 2, height: 2, ref_frames: above.ref_frames, mvs: above.mv });
            out.push(InterPrediction { plane: p, x, y: y + 2, width: 2, height: 2, ref_frames: left.ref_frames, mvs: left.mv });
            out.push(InterPrediction { plane: p, x: x + 2, y: y + 2, width: 2, height: 2, ref_frames: b.ref_frames, mvs: b.mvs });
        } else if b.bsize == BlockSize::BLOCK_8X4 {
            let above: Block = blocks.at(b.bo.x, b.bo.y - 1);
            out.push(InterPrediction { plane: p, x, y, width: 4, height: 2, ref_frames: above.ref_frames, mvs: above.mv });
            out.push(InterPrediction { plane: p, x, y: y + 2, width: 4, height: 2, ref_frames: b.ref_frames, mvs: b.mvs });
        } else {
            let left: Block = blocks.at(b.bo.x - 1, b.bo.y);
            out.push(InterPrediction { plane: p, x, y, width: 2, height: 4, ref_frames: left.ref_frames, mvs: left.mv });
            out.push(InterPrediction { plane: p, x: x + 2, y, width: 2, height: 4, ref_frames: b.ref_frames, mvs: b.mvs });
        }
    } else {
        let width: usize = side_on_plane(b.bsize.width(), xdec);
        let height: usize = side_on_plane(b.bsize.height(), ydec);
        out.push(InterPrediction { plane: p, x, y, width, height, ref_frames: b.ref_frames, mvs: b.mvs });
    }
    assert(out@ =~= before + plane_predictions(blocks, *b, p as int, u_xdec as int, u_ydec as int));
}

/// The predictions of a plane tile the block's samples on it: every sample lies in
/// exactly one of them.
pub proof fn law_predictions_tile_the_plane(blocks: &TileBlocks, b: InterBlock, p: int, xdec: int, ydec: int, sx: int, sy: int)
    requires
        0 <= p <= 2,
        b.bo.x <= 0x1000_0000,
        b.bo.y <= 0x1000_0000,
        0 <= xdec <= 1,
        0 <= ydec <= 1,
        p > 0 ==> shareable(blocks, b, xdec, ydec),
        ({
            let x = plane_pos(b.bo.x as int, if p == 0 { 0 } else { xdec });
            let y = plane_pos(b.bo.y as int, if p == 0 { 0 } else { ydec });
            &&& x <= sx < x + if p == 0 { b.bsize.w() } else { plane_side(b.bsize.w(), xdec) }
            &&& y <= sy < y + if p == 0 { b.bsize.h() } else { plane_side(b.bsize.h(), ydec) }
        }),
    ensures
        ({
            let s = plane_predictions(blocks, b, p, xdec, ydec);
            &&& exists|i: int| 0 <= i < s.len() && #[trigger] holds(s[i], sx, sy)
            &&& forall|i: int, j: int| 0 <= i < j < s.len() ==> !(#[trigger] holds(s[i], sx, sy) && #[trigger] holds(s[j], sx, sy))
        }),
{
    let s = plane_predictions(blocks, b, p, xdec, ydec);
    let x = plane_pos(b.bo.x as int, if p == 0 { 0 } else { xdec });
    let y = plane_pos(b.bo.y as int, if p == 0 { 0 } else { ydec });
    let right = sx >= x + 2;
    let lower = sy >= y + 2;
    if s.len() == 1 {
        assert(holds(s[0], sx, sy));
    } else if b.bsize == BlockSize::BLOCK_4X4 {
        let i = (if right { 1int } else { 0 }) + (if lower { 2int } else { 0 });
        assert(holds(s[i], sx, sy));
    } else if b.bsize == BlockSize::BLOCK_8X4 {
        assert(holds(s[if lower { 1int } else { 0 }], sx, sy));
    } else {
        assert(b.bsize == BlockSize::BLOCK_4X8);
        assert(holds(s[if right { 1int } else { 0 }], sx, sy));
    }
}

/// The sample lies in the prediction.
pub open spec fn holds(p: InterPrediction, sx: int, sy: int) -> bool {
    p.x <= sx < p.x + p.width && p.y <= sy < p.y + p.height
}

/// Where a unit of four luma samples lies on a plane, and how long a side is there: the
/// same at full resolution, and half of it at half; from an odd unit on, where that of the
/// pair starts, and never less than four samples.
pub proof fn law_places_on_planes(v: int, side: int)
    requires
        0 <= v,
        side % 4 == 0,
    ensures
        plane_pos(v, 0) == 4 * v,
        v % 2 == 0 ==> 2 * plane_pos(v, 1) == 4 * v,
        v % 2 == 1 ==> plane_pos(v, 1) == plane_pos(v - 1, 1),
        plane_side(side, 0) == side,
        side >= 8 ==> 2 * plane_side(side, 1) == side,
        side == 4 ==> plane_side(side, 1) == 4,
{
}

/// The unit of luma that a sample of a half resolution plane belongs to, but no later one
/// than the block's first.
pub open spec fn unit_under(s: int, first: int) -> int {
    imin((2 * s) / 4, first)
}

/// Shared chroma moves with the luma that it belongs to: each sample is predicted from the
/// references and along the vectors of the block that its luma lies in, the block's own
/// where that is the block.
pub proof fn law_shared_chroma_moves_with_its_luma(blocks: &TileBlocks, b: InterBlock, p: int, i: int, sx: int, sy: int)
    requires
        1 <= p <= 2,
        1 <= b.bo.x <= 0x1000_0000,
        1 <= b.bo.y <= 0x1000_0000,
        b.bsize.w() == 4 ==> b.bo.x % 2 == 1,
        b.bsize.w() > 4 ==> b.bo.x % 2 == 0,
        b.bsize.h() == 4 ==> b.bo.y % 2 == 1,
        b.bsize.h() > 4 ==> b.bo.y % 2 == 0,
        below_8x8(b.bsize),
        !shares_with_intra(blocks, b),
        0 <= i < plane_predictions(blocks, b, p, 1, 1).len(),
        holds(plane_predictions(blocks, b, p, 1, 1)[i], sx, sy),
    ensures
        ({
            let q = plane_predictions(blocks, b, p, 1, 1)[i];
            let ux = unit_under(sx, b.bo.x as int);
            let uy = unit_under(sy, b.bo.y as int);
            let from = blocks.block(ux, uy);
            &&& q.plane == p
            &&& ux == b.bo.x && uy == b.bo.y ==> q.ref_frames == b.ref_frames && q.mvs == b.mvs
            &&& ux != b.bo.x || uy != b.bo.y ==> q.ref_frames == from.ref_frames && q.mvs == from.mv
        }),
{
    crate::partition::law_blocks_have_their_names(b.bsize);
}

/// Elsewhere a plane is predicted at once, with the block's own references and vectors.
pub proof fn law_blocks_are_predicted_at_once(blocks: &TileBlocks, b: InterBlock, p: int, xdec: int, ydec: int)
    requires
        0 <= p <= 2,
        0 <= xdec <= 1,
        0 <= ydec <= 1,
        b.bo.x <= 0x1000_0000,
        b.bo.y <= 0x1000_0000,
        p == 0 || b.bsize.w() >= 8 && b.bsize.h() >= 8 || shares_with_intra(blocks, b),
    ensures
        ({
            let s = plane_predictions(blocks, b, p, xdec, ydec);
            &&& s.len() == 1
            &&& s[0].plane == p
            &&& s[0].ref_frames == b.ref_frames
            &&& s[0].mvs == b.mvs
            &&& p == 0 ==> s[0].x == 4 * b.bo.x && s[0].y == 4 * b.bo.y && s[0].width == b.bsize.w() && s[0].height == b.bsize.h()
            &&& p > 0 && xdec == 0 ==> s[0].x == 4 * b.bo.x && s[0].width == b.bsize.w()
            &&& p > 0 && ydec == 0 ==> s[0].y == 4 * b.bo.y && s[0].height == b.bsize.h()
            &&& p > 0 && xdec == 1 && b.bsize.w() >= 8 ==> 2 * s[0].width == b.bsize.w()
            &&& p > 0 && ydec == 1 && b.bsize.h() >= 8 ==> 2 * s[0].height == b.bsize.h()
            &&& p > 0 && xdec == 1 && b.bo.x % 2 == 0 ==> 2 * s[0].x == 4 * b.bo.x
            &&& p > 0 && ydec == 1 && b.bo.y % 2 == 0 ==> 2 * s[0].y == 4 * b.bo.y
        }),
{
    crate::partition::law_blocks_have_their_names(b.bsize);
}

/// A block is predicted plane by plane, luma first.
pub proof fn law_planes_are_predicted_in_order(blocks: &TileBlocks, b: InterBlock, xdec: int, ydec: int, cs: ChromaSampling, luma_only: bool, i: int, j: int)
    requires
        0 <= i < j < block_predictions(blocks, b, xdec, ydec, 3).len(),
        b.bo.x <= 0x1000_0000,
        b.bo.y <= 0x1000_0000,
    ensures
        block_predictions(blocks, b, xdec, ydec, 3)[i].plane <= block_predictions(blocks, b, xdec, ydec, 3)[j].plane,
        block_predictions(blocks, b, xdec, ydec, 1) == plane_predictions(blocks, b, 0, xdec, ydec),
        predicted_planes(b, xdec, ydec, cs, luma_only) == 1 || predicted_planes(b, xdec, ydec, cs, luma_only) == 3,
        luma_only || cs == ChromaSampling::Cs400 ==> predicted_planes(b, xdec, ydec, cs, luma_only) == 1,
        !luma_only && cs != ChromaSampling::Cs400 && b.bsize.w() >= 8 && b.bsize.h() >= 8 ==> predicted_planes(b, xdec, ydec, cs, luma_only) == 3,
{
    reveal_with_fuel(block_predictions, 4);
    let p0 = plane_predictions(blocks, b, 0, xdec, ydec);
    let p1 = plane_predictions(blocks, b, 1, xdec, ydec);
    let p2 = plane_predictions(blocks, b, 2, xdec, ydec);
    assert(Seq::<InterPrediction>::empty() + p0 =~= p0);
    assert(block_predictions(blocks, b, xdec, ydec, 3) == p0 + p1 + p2);
    crate::partition::law_blocks_have_their_names(b.bsize);
}

/// The values of a tile lie row by row: each one is that of the column and the row which
/// its place has, counted in whole rows.
pub proof fn law_values_lie_row_by_row<T: Copy>(g: TileGrid<T>, i: int)
    requires
        g.wf(),
        0 <= i < g.data.len(),
    ensures
        ({
            let (x, y) = (i % (g.cols as int), i / (g.cols as int));
            &&& 0 <= x < g.cols
            &&& 0 <= y < g.rows
            &&& g.cell(x, y) == g.data@[i]
        }),
{
    let (c, n) = (g.cols as int, g.rows as int);
    assert(c > 0 && n > 0) by (nonlinear_arith)
        requires 0 <= i < n * c, c >= 0, n >= 0;
    vstd::arithmetic::div_mod::lemma_fundamental_div_mod(i, c);
    let (x, y) = (i % c, i / c);
    assert(0 <= y < n && y * c + x == i) by (nonlinear_arith)
        requires i == c * y + x, 0 <= x < c, 0 <= i < n * c;
}

} // verus!
