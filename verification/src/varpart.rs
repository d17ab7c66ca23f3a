//! A residual variance tree over a 64x64 superblock: first and second moments
//! of (source - reference), aggregated from 8x8 leaves to the root, and
//! `256 * variance` at every node.

use vstd::arithmetic::power2::*;
use vstd::prelude::*;

use crate::plane::{Pixel, PlaneRegion};
use crate::util::{area_sum, imax, imin, lemma_shr_i64, row_sum, Grid};

verus! {

/// One variance node: the accumulated first and second moments of the residual
/// over a square of `2^log2_count` samples.
#[derive(Clone, Copy, Debug, PartialEq, Eq, Structural)]
pub struct VarNode {
    pub sum: i64,
    pub sse: i64,
    pub log2_count: u32,
}

/// `256 * (sse - sum^2 / n) / n` in integers, with `n = 2^log2_count` and the
/// bracket held at zero from below.
pub open spec fn variance_of(sum: int, sse: int, log2_count: nat) -> int {
    let n = pow2(log2_count) as int;
    (256 * imax(0, sse - (sum * sum) / n)) / n
}

impl VarNode {
    /// The moments are those of at most `2^log2_count` residuals of seventeen
    /// bits, on a square of at most 64x64.
    pub open spec fn wf(&self) -> bool {
        &&& self.log2_count <= 12
        &&& -65535 * pow2(self.log2_count as nat) <= self.sum <= 65535 * pow2(self.log2_count as nat)
        &&& 0 <= self.sse <= 4294836225 * pow2(self.log2_count as nat)
    }

    /// `256 * (sse - sum^2 / n) / n`, in integers and never below zero.
    pub fn variance(&self) -> (r: i64)
        requires
            self.wf(),
        ensures
            r == variance_of(self.sum as int, self.sse as int, self.log2_count as nat),
            r >= 0,
    {
        proof {
            lemma_pow2_range(self.log2_count);
            let n = pow2(self.log2_count as nat) as int;
            let s = self.sum as int;
            assert(-65535 * 4096 <= s <= 65535 * 4096) by (nonlinear_arith)
                requires -65535 * n <= s <= 65535 * n, 1 <= n <= 4096;
            assert(0 <= s * s <= 65535 * 4096 * 65535 * 4096) by (nonlinear_arith)
                requires -65535 * 4096 <= s <= 65535 * 4096;
            assert(4294836225 * n <= 4294836225 * 4096) by (nonlinear_arith)
                requires 1 <= n <= 4096;
            lemma_shr_i64((self.sum * self.sum) as i64, self.log2_count);
            assert(0 <= (s * s) / n <= s * s) by (nonlinear_arith)
                requires 0 <= s * s, 1 <= n;
        }
        let mean_sq: i64 = (self.sum * self.sum) >> self.log2_count;
        let gap: i64 = self.sse - mean_sq;
        let num: i64 = if gap > 0 { gap } else { 0 };
        proof {
            lemma_shr_i64((256 * num) as i64, self.log2_count);
            assert((256 * num as int) / pow2(self.log2_count as nat) as int >= 0) by (nonlinear_arith)
                requires num >= 0, pow2(self.log2_count as nat) >= 1;
        }
        (256 * num) >> self.log2_count
    }

    /// The node over four equally large squares.
    fn merge(children: &[VarNode; 4]) -> (r: VarNode)
        requires
            forall|i: int| 0 <= i < 4 ==> (#[trigger] children@[i]).wf() && children@[i].log2_count == children@[0].log2_count,
            children@[0].log2_count <= 10,
        ensures
            r.wf(),
            r.sum == children@[0].sum + children@[1].sum + children@[2].sum + children@[3].sum,
            r.sse == children@[0].sse + children@[1].sse + children@[2].sse + children@[3].sse,
            r.log2_count == children@[0].log2_count + 2,
    {
        proof {
            let l = children@[0].log2_count;
            lemma_pow2_range(l);
            lemma_pow2_adds(l as nat, 2);
            lemma2_to64();
            assert(children@[1].wf() && children@[2].wf() && children@[3].wf());
            assert(pow2(l as nat) <= 1024) by {
                if l < 10 {
                    lemma_pow2_strictly_increases(l as nat, 10);
                }
            }
        }
        VarNode {
            sum: children[0].sum + children[1].sum + children[2].sum + children[3].sum,
            sse: children[0].sse + children[1].sse + children[2].sse + children[3].sse,
            log2_count: children[0].log2_count + 2,
        }
    }
}

/// Powers of two up to the sample count of a superblock.
proof fn lemma_pow2_range(l: u32)
    requires
        l <= 12,
    ensures
        1 <= pow2(l as nat) <= 4096,
{
    lemma2_to64();
    lemma_pow2_pos(l as nat);
    if l < 12 {
        lemma_pow2_strictly_increases(l as nat, 12);
    }
}

/// The sample, counted from the superblock's corner, that stands for `(x, y)`:
/// past the visible extent the last visible row and column repeat.
pub open spec fn visible(v: int, extent: int) -> int {
    imin(v, imax(extent, 1) - 1)
}

/// The residual at `(x, y)` of the superblock.
pub open spec fn residual<T: Pixel>(src: &PlaneRegion<'_, T>, refr: Option<&PlaneRegion<'_, T>>, w: int, h: int, x: int, y: int) -> int {
    let sx = visible(x, w);
    let sy = visible(y, h);
    src.sample(sx, sy) - (match refr {
        Some(r) => r.sample(sx, sy),
        None => 0,
    })
}

/// The squares of a rectangle of residuals.
pub open spec fn squared(f: Grid) -> Grid {
    |x: int, y: int| f(x, y) * f(x, y)
}

/// `n` holds the moments of `f` over the square of side `dim` at `(x, y)`.
pub open spec fn covers(n: VarNode, f: Grid, x: int, y: int, dim: int) -> bool {
    &&& n.sum == area_sum(f, x, x + dim, y, y + dim)
    &&& n.sse == area_sum(squared(f), x, x + dim, y, y + dim)
    &&& pow2(n.log2_count as nat) == dim * dim
    &&& n.wf()
}

/// A row of a sum splits at any column.
proof fn lemma_row_split(f: Grid, x0: int, xm: int, x1: int, y: int)
    requires
        x0 <= xm <= x1,
    ensures
        row_sum(f, x0, x1, y) == row_sum(f, x0, xm, y) + row_sum(f, xm, x1, y),
    decreases x1 - xm,
{
    if xm < x1 {
        lemma_row_split(f, x0, xm, x1 - 1, y);
    }
}

/// A rectangle of a sum splits at any column.
proof fn lemma_split_columns(f: Grid, x0: int, xm: int, x1: int, y0: int, y1: int)
    requires
        x0 <= xm <= x1,
    ensures
        area_sum(f, x0, x1, y0, y1) == area_sum(f, x0, xm, y0, y1) + area_sum(f, xm, x1, y0, y1),
    decreases y1 - y0,
{
    if y0 < y1 {
        lemma_split_columns(f, x0, xm, x1, y0, y1 - 1);
        lemma_row_split(f, x0, xm, x1, y1 - 1);
    }
}

/// A rectangle of a sum splits at any row.
proof fn lemma_split_rows(f: Grid, x0: int, x1: int, y0: int, ym: int, y1: int)
    requires
        y0 <= ym <= y1,
    ensures
        area_sum(f, x0, x1, y0, y1) == area_sum(f, x0, x1, y0, ym) + area_sum(f, x0, x1, ym, y1),
    decreases y1 - ym,
{
    if ym < y1 {
        lemma_split_rows(f, x0, x1, y0, ym, y1 - 1);
    }
}

/// The sum over a square is the sum over its four quadrants.
proof fn lemma_quadrants(f: Grid, x: int, y: int, half: int)
    requires
        half >= 0,
    ensures
        area_sum(f, x, x + 2 * half, y, y + 2 * half) == area_sum(f, x, x + half, y, y + half)
            + area_sum(f, x + half, x + 2 * half, y, y + half)
            + area_sum(f, x, x + half, y + half, y + 2 * half)
            + area_sum(f, x + half, x + 2 * half, y + half, y + 2 * half),
{
    lemma_split_rows(f, x, x + 2 * half, y, y + half, y + 2 * half);
    lemma_split_columns(f, x, x + half, x + 2 * half, y, y + half);
    lemma_split_columns(f, x, x + half, x + 2 * half, y + half, y + 2 * half);
}

/// Four nodes over the quadrants of a square merge into the node over it.
proof fn lemma_merge_covers(a: VarNode, b: VarNode, c: VarNode, d: VarNode, m: VarNode, f: Grid, x: int, y: int, half: int)
    requires
        half >= 1,
        covers(a, f, x, y, half),
        covers(b, f, x + half, y, half),
        covers(c, f, x, y + half, half),
        covers(d, f, x + half, y + half, half),
        m.sum == a.sum + b.sum + c.sum + d.sum,
        m.sse == a.sse + b.sse + c.sse + d.sse,
        m.log2_count == a.log2_count + 2,
        m.wf(),
    ensures
        covers(m, f, x, y, 2 * half),
{
    lemma_quadrants(f, x, y, half);
    lemma_quadrants(squared(f), x, y, half);
    lemma_pow2_adds(a.log2_count as nat, 2);
    lemma2_to64();
    assert((2 * half) * (2 * half) == half * half * 4) by (nonlinear_arith);
    assert(x + half + half == x + 2 * half && y + half + half == y + 2 * half);
}

/// Variance tree over a 64x64 superblock. Each level is in raster order.
pub struct VarTree {
    pub v8: [VarNode; 64],
    pub v16: [VarNode; 16],
    pub v32: [VarNode; 4],
    pub v64: VarNode,
}

impl VarTree {
    /// Every node holds the moments of `f` over its own square.
    pub open spec fn describes(&self, f: Grid) -> bool {
        &&& forall|bx: int, by: int| 0 <= bx < 8 && 0 <= by < 8 ==> covers(#[trigger] self.v8@[by * 8 + bx], f, 8 * bx, 8 * by, 8)
        &&& forall|bx: int, by: int| 0 <= bx < 4 && 0 <= by < 4 ==> covers(#[trigger] self.v16@[by * 4 + bx], f, 16 * bx, 16 * by, 16)
        &&& forall|bx: int, by: int| 0 <= bx < 2 && 0 <= by < 2 ==> covers(#[trigger] self.v32@[by * 2 + bx], f, 32 * bx, 32 * by, 32)
        &&& covers(self.v64, f, 0, 0, 64)
    }
}

const SB: usize = 64;

/// The residuals of the superblock in raster order, the last visible row and
/// column repeated past the visible extent; without a reference, the source.
fn load_residual<T: Pixel>(src: &PlaneRegion<'_, T>, refr: Option<&PlaneRegion<'_, T>>, w: usize, h: usize, out: &mut [i32; 4096])
    requires
        window_ok(src, w as int, h as int),
        refr matches Some(r) ==> window_ok(r, w as int, h as int),
    ensures
        forall|x: int, y: int| 0 <= x < 64 && 0 <= y < 64 ==> {
            &&& #[trigger] final(out)@[y * 64 + x] == residual(src, refr, w as int, h as int, x, y)
            &&& -65535 <= final(out)@[y * 64 + x] <= 65535
        },
{
    let w1: usize = if w > 1 { w - 1 } else { 0 };
    let h1: usize = if h > 1 { h - 1 } else { 0 };
    let mut y: usize = 0;
    while y < SB
        invariant
            y <= SB,
            w1 == imax(w as int, 1) - 1,
            h1 == imax(h as int, 1) - 1,
            window_ok(src, w as int, h as int),
            refr matches Some(r) ==> window_ok(r, w as int, h as int),
            forall|i: int, j: int| 0 <= i < 64 && 0 <= j < y ==> {
                &&& #[trigger] out@[j * 64 + i] == residual(src, refr, w as int, h as int, i, j)
                &&& -65535 <= out@[j * 64 + i] <= 65535
            },
        decreases SB - y,
    {
        let sy: usize = if y < h1 { y } else { h1 };
        let mut x: usize = 0;
        while x < SB
            invariant
                x <= SB,
                y < SB,
                w1 == imax(w as int, 1) - 1,
                h1 == imax(h as int, 1) - 1,
                sy == visible(y as int, h as int),
                window_ok(src, w as int, h as int),
                refr matches Some(r) ==> window_ok(r, w as int, h as int),
                forall|i: int, j: int| 0 <= i < 64 && 0 <= j < 64 && (j < y || j == y && i < x) ==> {
                    &&& #[trigger] out@[j * 64 + i] == residual(src, refr, w as int, h as int, i, j)
                    &&& -65535 <= out@[j * 64 + i] <= 65535
                },
            decreases SB - x,
        {
            let sx: usize = if x < w1 { x } else { w1 };
            let s: i32 = src.at(sx, sy).to_i32();
            let r: i32 = match refr {
                Some(row) => row.at(sx, sy).to_i32(),
                None => 0,
            };
            out[y * SB + x] = s - r;
            x = x + 1;
        }
        y = y + 1;
    }
}

/// The window holds every sample that a superblock with `w` by `h` visible
/// samples reads.
pub open spec fn window_ok<T: Pixel>(p: &PlaneRegion<'_, T>, w: int, h: int) -> bool {
    &&& p.wf()
    &&& imin(w, 64) <= p.width
    &&& imin(h, 64) <= p.height
}

/// The moments of the 8x8 leaf at column `bx`, row `by` of the leaf grid.
fn leaf(buf: &[i32; 4096], bx: usize, by: usize, Ghost(f): Ghost<Grid>) -> (r: VarNode)
    requires
        bx < 8,
        by < 8,
        forall|x: int, y: int| 0 <= x < 64 && 0 <= y < 64 ==> #[trigger] buf@[y * 64 + x] == f(x, y) && -65535 <= buf@[y * 64 + x] <= 65535,
    ensures
        covers(r, f, 8 * bx, 8 * by, 8),
        r.log2_count == 6,
{
    let ghost x0 = 8 * bx as int;
    let ghost y0 = 8 * by as int;
    let ghost g = squared(f);
    let mut sum: i64 = 0;
    let mut sse: i64 = 0;
    let mut iy: usize = 0;
    while iy < 8
        invariant
            iy <= 8,
            bx < 8,
            by < 8,
            x0 == 8 * bx,
            y0 == 8 * by,
            g == squared(f),
            forall|x: int, y: int| 0 <= x < 64 && 0 <= y < 64 ==> #[trigger] buf@[y * 64 + x] == f(x, y) && -65535 <= buf@[y * 64 + x] <= 65535,
            sum == area_sum(f, x0, x0 + 8, y0, y0 + iy),
            sse == area_sum(g, x0, x0 + 8, y0, y0 + iy),
            -524280 * iy <= sum <= 524280 * iy,
            0 <= sse <= 34358689800 * iy,
        decreases 8 - iy,
    {
        let row: usize = (by * 8 + iy) * SB + bx * 8;
        let ghost sum0 = sum as int;
        let ghost sse0 = sse as int;
        let ghost yy = y0 + iy;
        let mut ix: usize = 0;
        while ix < 8
            invariant
                ix <= 8,
                iy < 8,
                bx < 8,
                by < 8,
                x0 == 8 * bx,
                y0 == 8 * by,
                yy == y0 + iy,
                g == squared(f),
                row == (by * 8 + iy) * 64 + bx * 8,
                forall|x: int, y: int| 0 <= x < 64 && 0 <= y < 64 ==> #[trigger] buf@[y * 64 + x] == f(x, y) && -65535 <= buf@[y * 64 + x] <= 65535,
                sum == sum0 + row_sum(f, x0, x0 + ix, yy),
                sse == sse0 + row_sum(g, x0, x0 + ix, yy),
                -524280 * iy <= sum0 <= 524280 * iy,
                0 <= sse0 <= 34358689800 * iy,
                -65535 * ix <= sum - sum0 <= 65535 * ix,
                0 <= sse - sse0 <= 4294836225 * ix,
            decreases 8 - ix,
        {
            assert(buf@[yy * 64 + (x0 + ix)] == f(x0 + ix, yy));
            let d: i64 = buf[row + ix] as i64;
            assert(0 <= d * d <= 4294836225) by (nonlinear_arith)
                requires -65535 <= d <= 65535;
            assert(g(x0 + ix, yy) == d * d);
            sum = sum + d;
            sse = sse + d * d;
            ix = ix + 1;
        }
        iy = iy + 1;
    }
    proof {
        lemma2_to64();
    }
    VarNode { sum, sse, log2_count: 6 }
}

/// Merges each 2x2 group of a `dim` by `dim` grid of nodes into one node.
fn merge_level(nodes: &[VarNode], dim: usize, Ghost(f): Ghost<Grid>, Ghost(side): Ghost<int>) -> (r: Vec<VarNode>)
    requires
        dim == 8 && side == 8 || dim == 4 && side == 16 || dim == 2 && side == 32,
        nodes.len() == dim * dim,
        forall|bx: int, by: int| 0 <= bx < dim && 0 <= by < dim ==> covers(#[trigger] nodes@[by * dim + bx], f, side * bx, side * by, side),
        forall|i: int| 0 <= i < nodes.len() ==> (#[trigger] nodes@[i]).log2_count == nodes@[0].log2_count <= 10,
    ensures
        r.len() == (dim / 2) * (dim / 2),
        forall|bx: int, by: int| 0 <= bx < dim / 2 && 0 <= by < dim / 2 ==>
            covers(#[trigger] r@[by * (dim / 2) + bx], f, 2 * side * bx, 2 * side * by, 2 * side),
        forall|i: int| 0 <= i < r.len() ==> (#[trigger] r@[i]).log2_count == nodes@[0].log2_count + 2,
{
    let half: usize = dim / 2;
    let mut dst: Vec<VarNode> = Vec::new();
    let mut py: usize = 0;
    assert(0 * half == 0);
    while py < half
        invariant
            py <= half,
            half == dim / 2,
            dim == 8 && side == 8 || dim == 4 && side == 16 || dim == 2 && side == 32,
            nodes.len() == dim * dim,
            forall|bx: int, by: int| 0 <= bx < dim && 0 <= by < dim ==> covers(#[trigger] nodes@[by * dim + bx], f, side * bx, side * by, side),
            forall|i: int| 0 <= i < nodes.len() ==> (#[trigger] nodes@[i]).log2_count == nodes@[0].log2_count <= 10,
            dst.len() == py * half,
            forall|bx: int, by: int| 0 <= bx < half && 0 <= by < py ==>
                covers(#[trigger] dst@[by * half + bx], f, 2 * side * bx, 2 * side * by, 2 * side),
            forall|i: int| 0 <= i < dst.len() ==> (#[trigger] dst@[i]).log2_count == nodes@[0].log2_count + 2,
        decreases half - py,
    {
        let mut px: usize = 0;
        while px < half
            invariant
                px <= half,
                py < half,
                half == dim / 2,
                dim == 8 && side == 8 || dim == 4 && side == 16 || dim == 2 && side == 32,
                nodes.len() == dim * dim,
                forall|bx: int, by: int| 0 <= bx < dim && 0 <= by < dim ==> covers(#[trigger] nodes@[by * dim + bx], f, side * bx, side * by, side),
                forall|i: int| 0 <= i < nodes.len() ==> (#[trigger] nodes@[i]).log2_count == nodes@[0].log2_count <= 10,
                dst.len() == py * half + px,
                forall|bx: int, by: int| 0 <= bx < half && 0 <= by && (by < py || by == py && bx < px) ==>
                    covers(#[trigger] dst@[by * half + bx], f, 2 * side * bx, 2 * side * by, 2 * side),
                forall|i: int| 0 <= i < dst.len() ==> (#[trigger] dst@[i]).log2_count == nodes@[0].log2_count + 2,
            decreases half - px,
        {
            proof {
                lemma_cell(2 * px as int, 2 * py as int, dim as int);
                lemma_cell(2 * px + 1, 2 * py as int, dim as int);
                lemma_cell(2 * px as int, 2 * py + 1, dim as int);
                lemma_cell(2 * px + 1, 2 * py + 1, dim as int);
            }
            let i0: usize = py * 2 * dim + px * 2;
            let i1: usize = (py * 2 + 1) * dim + px * 2;
            let kids: [VarNode; 4] = [nodes[i0], nodes[i0 + 1], nodes[i1], nodes[i1 + 1]];
            proof {
                let a = nodes@[(2 * py) * dim + 2 * px];
                let b = nodes@[(2 * py) * dim + (2 * px + 1)];
                let c = nodes@[(2 * py + 1) * dim + 2 * px];
                let d = nodes@[(2 * py + 1) * dim + (2 * px + 1)];
                assert(kids@[0] == a && kids@[1] == b && kids@[2] == c && kids@[3] == d);
            }
            let m: VarNode = VarNode::merge(&kids);
            proof {
                let x = 2 * side * px;
                let y = 2 * side * py;
                assert(side * (2 * px) == x && side * (2 * px + 1) == x + side && side * (2 * py) == y && side * (2 * py + 1) == y + side) by (nonlinear_arith)
                    requires x == 2 * side * px, y == 2 * side * py;
                lemma_merge_covers(kids@[0], kids@[1], kids@[2], kids@[3], m, f, x, y, side);
            }
            let ghost before = dst@;
            dst.push(m);
            proof {
                assert forall|bx: int, by: int| 0 <= bx < half && 0 <= by && (by < py || by == py && bx < px + 1) implies
                    covers(#[trigger] dst@[by * half + bx], f, 2 * side * bx, 2 * side * by, 2 * side) by {
                    if by < py {
                        assert(by * half + bx < py * half) by (nonlinear_arith)
                            requires 0 <= bx < half, 0 <= by < py;
                        assert(dst@[by * half + bx] == before[by * half + bx]);
                    }
                    assert(0 <= by * half) by (nonlinear_arith) requires 0 <= by, 0 <= half;
                }
            }
            px = px + 1;
        }
        assert(py * half + half == (py + 1) * half) by (nonlinear_arith);
        py = py + 1;
    }
    dst
}

/// A cell of a square grid lies inside it.
proof fn lemma_cell(x: int, y: int, dim: int)
    requires
        0 <= x < dim,
        0 <= y < dim,
    ensures
        0 <= y * dim + x < dim * dim,
        0 <= y * dim,
{
    assert(0 <= y * dim + x < dim * dim && 0 <= y * dim) by (nonlinear_arith)
        requires 0 <= x < dim, 0 <= y < dim;
}

/// The residual variance tree of one superblock. `w` and `h` are the visible
/// extent inside it; without a reference the residual is the source itself.
pub fn build_var_tree<T: Pixel>(src: &PlaneRegion<'_, T>, refr: Option<&PlaneRegion<'_, T>>, w: usize, h: usize) -> (r: VarTree)
    requires
        window_ok(src, w as int, h as int),
        refr matches Some(r) ==> window_ok(r, w as int, h as int),
    ensures
        r.describes(|x: int, y: int| residual(src, refr, w as int, h as int, x, y)),
        r.wf(),
{
    let ghost f: Grid = |x: int, y: int| residual(src, refr, w as int, h as int, x, y);
    let mut buf: [i32; 4096] = [0; 4096];
    load_residual(src, refr, w, h, &mut buf);
    let zero: VarNode = VarNode { sum: 0, sse: 0, log2_count: 0 };
    let mut v8: [VarNode; 64] = [zero; 64];
    let mut by: usize = 0;
    while by < 8
        invariant
            by <= 8,
            f == (|x: int, y: int| residual(src, refr, w as int, h as int, x, y)),
            forall|x: int, y: int| 0 <= x < 64 && 0 <= y < 64 ==> #[trigger] buf@[y * 64 + x] == f(x, y) && -65535 <= buf@[y * 64 + x] <= 65535,
            forall|x: int, y: int| 0 <= x < 8 && 0 <= y < by ==> covers(#[trigger] v8@[y * 8 + x], f, 8 * x, 8 * y, 8),
            forall|i: int| 0 <= i < 8 * by ==> (#[trigger] v8@[i]).log2_count == 6,
        decreases 8 - by,
    {
        let mut bx: usize = 0;
        while bx < 8
            invariant
                bx <= 8,
                by < 8,
                f == (|x: int, y: int| residual(src, refr, w as int, h as int, x, y)),
                forall|x: int, y: int| 0 <= x < 64 && 0 <= y < 64 ==> #[trigger] buf@[y * 64 + x] == f(x, y) && -65535 <= buf@[y * 64 + x] <= 65535,
                forall|x: int, y: int| 0 <= x < 8 && 0 <= y && (y < by || y == by && x < bx) ==> covers(#[trigger] v8@[y * 8 + x], f, 8 * x, 8 * y, 8),
                forall|i: int| 0 <= i < 8 * by + bx ==> (#[trigger] v8@[i]).log2_count == 6,
            decreases 8 - bx,
        {
            v8[by * 8 + bx] = leaf(&buf, bx, by, Ghost(f));
            bx = bx + 1;
        }
        by = by + 1;
    }
    let l16: Vec<VarNode> = merge_level(v8.as_slice(), 8, Ghost(f), Ghost(8));
    let l32: Vec<VarNode> = merge_level(l16.as_slice(), 4, Ghost(f), Ghost(16));
    let l64: Vec<VarNode> = merge_level(l32.as_slice(), 2, Ghost(f), Ghost(32));
    let mut v16: [VarNode; 16] = [zero; 16];
    let mut i: usize = 0;
    while i < 16
        invariant
            i <= 16,
            l16.len() == 16,
            forall|k: int| 0 <= k < i ==> v16@[k] == l16@[k],
        decreases 16 - i,
    {
        v16[i] = l16[i];
        i = i + 1;
    }
    let v32: [VarNode; 4] = [l32[0], l32[1], l32[2], l32[3]];
    let tree: VarTree = VarTree { v8, v16, v32, v64: l64[0] };
    proof {
        assert(l64@[0int * (2int / 2) + 0int] == l64@[0]);
        assert forall|bx: int, by: int| 0 <= bx < 4 && 0 <= by < 4 implies covers(#[trigger] tree.v16@[by * 4 + bx], f, 16 * bx, 16 * by, 16) by {
            assert(tree.v16@[by * 4 + bx] == l16@[by * 4 + bx]);
        }
        assert forall|bx: int, by: int| 0 <= bx < 2 && 0 <= by < 2 implies covers(#[trigger] tree.v32@[by * 2 + bx], f, 32 * bx, 32 * by, 32) by {
            assert(tree.v32@[by * 2 + bx] == l32@[by * 2 + bx]);
        }
        lemma_describes_wf(&tree, f);
    }
    tree
}

/// `256 * variance` of `f` over the square of side `dim` at `(x, y)`, from the
/// samples themselves.
pub open spec fn brute_variance(f: Grid, x: int, y: int, dim: int, log2_count: nat) -> int {
    variance_of(area_sum(f, x, x + dim, y, y + dim), area_sum(squared(f), x, x + dim, y, y + dim), log2_count)
}

impl VarTree {
    /// The node of side `dim` whose square holds the sample `(ox, oy)`.
    pub open spec fn node(&self, dim: int, ox: int, oy: int) -> VarNode {
        if dim == 8 {
            self.v8@[(oy / 8) * 8 + ox / 8]
        } else if dim == 16 {
            self.v16@[(oy / 16) * 4 + ox / 16]
        } else if dim == 32 {
            self.v32@[(oy / 32) * 2 + ox / 32]
        } else {
            self.v64
        }
    }

    /// Every node's moments are those of a square of residuals.
    pub open spec fn wf(&self) -> bool {
        &&& forall|i: int| 0 <= i < 64 ==> (#[trigger] self.v8@[i]).wf()
        &&& forall|i: int| 0 <= i < 16 ==> (#[trigger] self.v16@[i]).wf()
        &&& forall|i: int| 0 <= i < 4 ==> (#[trigger] self.v32@[i]).wf()
        &&& self.v64.wf()
    }

    /// The variance of the node of side `dim` (64, 32, 16 or 8) whose square
    /// holds the sample `(ox, oy)` of the superblock.
    pub fn node_variance(&self, dim: usize, ox: usize, oy: usize) -> (r: i64)
        requires
            dim == 8 || dim == 16 || dim == 32 || dim == 64,
            ox < 64,
            oy < 64,
            self.wf(),
        ensures
            r == {
                let n = self.node(dim as int, ox as int, oy as int);
                variance_of(n.sum as int, n.sse as int, n.log2_count as nat)
            },
            r >= 0,
    {
        if dim == 8 {
            self.v8[(oy / 8) * 8 + ox / 8].variance()
        } else if dim == 16 {
            self.v16[(oy / 16) * 4 + ox / 16].variance()
        } else if dim == 32 {
            self.v32[(oy / 32) * 2 + ox / 32].variance()
        } else {
            self.v64.variance()
        }
    }
}

/// A tree that describes a rectangle of residuals has well-formed nodes.
proof fn lemma_describes_wf(t: &VarTree, f: Grid)
    requires
        t.describes(f),
    ensures
        t.wf(),
{
    assert forall|i: int| 0 <= i < 64 implies (#[trigger] t.v8@[i]).wf() by {
        assert(covers(t.v8@[(i / 8) * 8 + i % 8], f, 8 * (i % 8), 8 * (i / 8), 8));
        assert((i / 8) * 8 + i % 8 == i);
    }
    assert forall|i: int| 0 <= i < 16 implies (#[trigger] t.v16@[i]).wf() by {
        assert(covers(t.v16@[(i / 4) * 4 + i % 4], f, 16 * (i % 4), 16 * (i / 4), 16));
        assert((i / 4) * 4 + i % 4 == i);
    }
    assert forall|i: int| 0 <= i < 4 implies (#[trigger] t.v32@[i]).wf() by {
        assert(covers(t.v32@[(i / 2) * 2 + i % 2], f, 32 * (i % 2), 32 * (i / 2), 32));
        assert((i / 2) * 2 + i % 2 == i);
    }
}

/// The root of the residual variance tree alone: `256 * variance` over the whole
/// superblock.
pub fn sb_root_variance<T: Pixel>(src: &PlaneRegion<'_, T>, refr: Option<&PlaneRegion<'_, T>>, w: usize, h: usize) -> (r: i64)
    requires
        window_ok(src, w as int, h as int),
        refr matches Some(r) ==> window_ok(r, w as int, h as int),
    ensures
        r == brute_variance(|x: int, y: int| residual(src, refr, w as int, h as int, x, y), 0, 0, 64, 12),
        r >= 0,
{
    let tree: VarTree = build_var_tree(src, refr, w, h);
    proof {
        let f: Grid = |x: int, y: int| residual(src, refr, w as int, h as int, x, y);
        law_tree_matches_brute_force(&tree, f, 64, 0, 0);
    }
    tree.v64.variance()
}

/// The base two logarithm of the sample count of a square node.
pub open spec fn log2_samples(dim: int) -> nat {
    if dim == 8 {
        6
    } else if dim == 16 {
        8
    } else if dim == 32 {
        10
    } else {
        12
    }
}

/// The tree agrees with brute force at every level: the variance of any node is
/// the one computed from the samples of its own square.
pub proof fn law_tree_matches_brute_force(t: &VarTree, f: Grid, dim: int, ox: int, oy: int)
    requires
        t.describes(f),
        dim == 8 || dim == 16 || dim == 32 || dim == 64,
        0 <= ox < 64,
        0 <= oy < 64,
    ensures
        ({
            let n = t.node(dim, ox, oy);
            &&& n.wf()
            &&& variance_of(n.sum as int, n.sse as int, n.log2_count as nat) == brute_variance(
                f,
                ox - ox % dim,
                oy - oy % dim,
                dim,
                log2_samples(dim),
            )
        }),
{
    lemma2_to64();
    let bx = ox / dim;
    let by = oy / dim;
    let n = t.node(dim, ox, oy);
    assert(dim * bx == ox - ox % dim && dim * by == oy - oy % dim);
    if dim == 8 {
        assert(covers(t.v8@[by * 8 + bx], f, 8 * bx, 8 * by, 8));
    } else if dim == 16 {
        assert(covers(t.v16@[by * 4 + bx], f, 16 * bx, 16 * by, 16));
    } else if dim == 32 {
        assert(covers(t.v32@[by * 2 + bx], f, 32 * bx, 32 * by, 32));
    } else {
        assert(bx == 0 && by == 0);
    }
    assert(covers(n, f, dim * bx, dim * by, dim));
    lemma_pow2_injective(n.log2_count as nat, log2_samples(dim));
}

/// Distinct exponents give distinct powers of two.
proof fn lemma_pow2_injective(a: nat, b: nat)
    requires
        pow2(a) == pow2(b),
    ensures
        a == b,
{
    if a < b {
        lemma_pow2_strictly_increases(a, b);
    } else if b < a {
        lemma_pow2_strictly_increases(b, a);
    }
}

/// A sum of zeros is zero.
proof fn lemma_area_zero(f: Grid, x0: int, x1: int, y0: int, y1: int)
    requires
        forall|x: int, y: int| #[trigger] f(x, y) == 0,
    ensures
        area_sum(f, x0, x1, y0, y1) == 0,
    decreases y1 - y0,
{
    if y0 < y1 {
        lemma_area_zero(f, x0, x1, y0, y1 - 1);
        lemma_row_zero(f, x0, x1, y1 - 1);
    }
}

/// A row of zeros sums to zero.
proof fn lemma_row_zero(f: Grid, x0: int, x1: int, y: int)
    requires
        forall|x: int, y: int| #[trigger] f(x, y) == 0,
    ensures
        row_sum(f, x0, x1, y) == 0,
    decreases x1 - x0,
{
    if x0 < x1 {
        lemma_row_zero(f, x0, x1 - 1, y);
    }
}

/// A source that equals its reference has no residual: both moments and the
/// variance of every node are zero.
pub proof fn law_zero_residual_when_reference_equals_source<T: Pixel>(t: &VarTree, src: &PlaneRegion<'_, T>, w: int, h: int, dim: int, ox: int, oy: int)
    requires
        t.describes(|x: int, y: int| residual(src, Some(src), w, h, x, y)),
        dim == 8 || dim == 16 || dim == 32 || dim == 64,
        0 <= ox < 64,
        0 <= oy < 64,
    ensures
        ({
            let n = t.node(dim, ox, oy);
            &&& n.sum == 0
            &&& n.sse == 0
            &&& variance_of(n.sum as int, n.sse as int, n.log2_count as nat) == 0
        }),
{
    let f: Grid = |x: int, y: int| residual(src, Some(src), w, h, x, y);
    let n = t.node(dim, ox, oy);
    law_tree_matches_brute_force(t, f, dim, ox, oy);
    let bx = ox / dim;
    let by = oy / dim;
    if dim == 8 {
        assert(covers(t.v8@[by * 8 + bx], f, 8 * bx, 8 * by, 8));
    } else if dim == 16 {
        assert(covers(t.v16@[by * 4 + bx], f, 16 * bx, 16 * by, 16));
    } else if dim == 32 {
        assert(covers(t.v32@[by * 2 + bx], f, 32 * bx, 32 * by, 32));
    }
    assert(covers(n, f, dim * bx, dim * by, dim) || dim == 64);
    assert forall|x: int, y: int| #[trigger] squared(f)(x, y) == 0 by {
        assert(f(x, y) == 0);
    }
    assert(forall|x: int, y: int| #[trigger] f(x, y) == 0);
    if dim == 64 {
        lemma_area_zero(f, 0, 64, 0, 64);
        lemma_area_zero(squared(f), 0, 64, 0, 64);
    } else {
        lemma_area_zero(f, dim * bx, dim * bx + dim, dim * by, dim * by + dim);
        lemma_area_zero(squared(f), dim * bx, dim * bx + dim, dim * by, dim * by + dim);
    }
    let p = pow2(n.log2_count as nat) as int;
    lemma_pow2_pos(n.log2_count as nat);
    assert(0int / p == 0) by (nonlinear_arith) requires p > 0;
}

/// The variance does not depend on the level of what varies: the same amount added to every
/// sample leaves it as it is. Where the samples add up to nothing it is 256 times the mean
/// of their squares, rounded down, and where all are equal it is nothing.
pub proof fn law_variance_ignores_the_level(sum: int, sse: int, log2_count: nat, c: int)
    requires
        0 <= sse,
    ensures
        ({
            let n = pow2(log2_count) as int;
            let v = variance_of(0, sse, log2_count);
            &&& variance_of(sum + n * c, sse + 2 * c * sum + n * c * c, log2_count) == variance_of(sum, sse, log2_count)
            &&& n * v <= 256 * sse < n * (v + 1)
            &&& variance_of(n * c, n * c * c, log2_count) == 0
        }),
{
    let n = pow2(log2_count) as int;
    lemma_pow2_pos(log2_count);
    lemma_level(sum, n, c);
    lemma_level(0, n, c);
    assert((0int * 0) / n == 0) by (nonlinear_arith)
        requires n > 0;
    assert(0int / n == 0) by (nonlinear_arith)
        requires n > 0;
    assert(sum * sum / n == (sum * sum) / n);
    let v = variance_of(0, sse, log2_count);
    vstd::arithmetic::div_mod::lemma_fundamental_div_mod(256 * sse, n);
    vstd::arithmetic::div_mod::lemma_mod_bound(256 * sse, n);
    assert(n * (v + 1) == n * v + n) by (nonlinear_arith);
    assert(n * c * c == 0 + 2 * c * 0 + n * c * c);
    assert(0 + n * c == n * c);
    assert(256 * imax(0, n * c * c - (n * c * c)) == 0);
}

/// A square of a shifted sum divides as the shift says.
proof fn lemma_level(sum: int, n: int, c: int)
    requires
        n > 0,
    ensures
        ((sum + n * c) * (sum + n * c)) / n == (sum * sum) / n + 2 * c * sum + n * c * c,
{
    let q = (sum * sum) / n;
    let r = (sum * sum) % n;
    vstd::arithmetic::div_mod::lemma_fundamental_div_mod(sum * sum, n);
    vstd::arithmetic::div_mod::lemma_mod_bound(sum * sum, n);
    let t = q + 2 * c * sum + n * c * c;
    assert((sum + n * c) * (sum + n * c) == t * n + r) by (nonlinear_arith)
        requires sum * sum == n * q + r, t == q + 2 * c * sum + n * c * c;
    vstd::arithmetic::div_mod::lemma_fundamental_div_mod_converse((sum + n * c) * (sum + n * c), n, t, r);
}

/// Past the visible extent the last visible sample repeats.
pub proof fn law_last_visible_sample_repeats(v: int, extent: int)
    requires
        0 <= v,
        0 <= extent,
    ensures
        v < extent ==> visible(v, extent) == v,
        v >= extent && extent > 0 ==> visible(v, extent) == extent - 1,
        extent == 0 ==> visible(v, extent) == 0,
{
}

/// A residual is what the source has over the reference at the same place; without a
/// reference it is the source.
pub proof fn law_residuals_are_differences<T: Pixel>(src: &PlaneRegion<'_, T>, r: &PlaneRegion<'_, T>, w: int, h: int, x: int, y: int)
    requires
        0 <= x < w,
        0 <= y < h,
    ensures
        residual(src, Some(r), w, h, x, y) + r.sample(x, y) == src.sample(x, y),
        residual(src, None, w, h, x, y) == src.sample(x, y),
        residual(src, Some(r), w, h, w + x, y) == residual(src, Some(r), w, h, w - 1, y),
        residual(src, Some(r), w, h, x, h + y) == residual(src, Some(r), w, h, x, h - 1),
{
}

/// A node of the tree covers the square that the place lies in: each quarter of it is
/// covered by a node of half the side.
pub proof fn law_nodes_have_four_quarters(t: &VarTree, f: Grid, dim: int, ox: int, oy: int)
    requires
        t.describes(f),
        dim == 16 || dim == 32 || dim == 64,
        0 <= ox < 64,
        0 <= oy < 64,
        ox % dim == 0,
        oy % dim == 0,
    ensures
        ({
            let h = dim / 2;
            t.node(dim, ox, oy).sum == t.node(h, ox, oy).sum + t.node(h, ox + h, oy).sum + t.node(h, ox, oy + h).sum + t.node(h, ox + h, oy + h).sum
        }),
{
    let h = dim / 2;
    lemma_node_covers(t, f, dim, ox, oy);
    lemma_node_covers(t, f, h, ox, oy);
    lemma_node_covers(t, f, h, ox + h, oy);
    lemma_node_covers(t, f, h, ox, oy + h);
    lemma_node_covers(t, f, h, ox + h, oy + h);
    lemma_quarters(f, ox, oy, h);
}

proof fn lemma_node_covers(t: &VarTree, f: Grid, dim: int, ox: int, oy: int)
    requires
        t.describes(f),
        dim == 8 || dim == 16 || dim == 32 || dim == 64,
        0 <= ox < 64,
        0 <= oy < 64,
        ox % dim == 0,
        oy % dim == 0,
    ensures
        covers(t.node(dim, ox, oy), f, ox, oy, dim),
{
    if dim == 8 {
        assert(covers(t.v8@[(oy / 8) * 8 + ox / 8], f, 8 * (ox / 8), 8 * (oy / 8), 8));
    } else if dim == 16 {
        assert(covers(t.v16@[(oy / 16) * 4 + ox / 16], f, 16 * (ox / 16), 16 * (oy / 16), 16));
    } else if dim == 32 {
        assert(covers(t.v32@[(oy / 32) * 2 + ox / 32], f, 32 * (ox / 32), 32 * (oy / 32), 32));
    }
}

proof fn lemma_quarters(f: Grid, x: int, y: int, h: int)
    requires
        0 <= h,
    ensures
        area_sum(f, x, x + 2 * h, y, y + 2 * h) == area_sum(f, x, x + h, y, y + h) + area_sum(f, x + h, x + 2 * h, y, y + h) + area_sum(
            f,
            x,
            x + h,
            y + h,
            y + 2 * h,
        ) + area_sum(f, x + h, x + 2 * h, y + h, y + 2 * h),
{
    lemma_side_by_side(f, x, x + h, x + 2 * h, y, y + h);
    lemma_side_by_side(f, x, x + h, x + 2 * h, y + h, y + 2 * h);
    lemma_one_above(f, x, x + 2 * h, y, y + h, y + 2 * h);
}

proof fn lemma_side_by_side(f: Grid, x0: int, x1: int, x2: int, y0: int, y1: int)
    requires
        x0 <= x1 <= x2,
    ensures
        area_sum(f, x0, x2, y0, y1) == area_sum(f, x0, x1, y0, y1) + area_sum(f, x1, x2, y0, y1),
    decreases y1 - y0,
{
    if y0 < y1 {
        lemma_side_by_side(f, x0, x1, x2, y0, y1 - 1);
        lemma_row_parts(f, x0, x1, x2, y1 - 1);
    }
}

proof fn lemma_row_parts(f: Grid, x0: int, x1: int, x2: int, y: int)
    requires
        x0 <= x1 <= x2,
    ensures
        row_sum(f, x0, x2, y) == row_sum(f, x0, x1, y) + row_sum(f, x1, x2, y),
    decreases x2 - x1,
{
    if x1 < x2 {
        lemma_row_parts(f, x0, x1, x2 - 1, y);
    }
}

proof fn lemma_one_above(f: Grid, x0: int, x1: int, y0: int, y1: int, y2: int)
    requires
        y0 <= y1 <= y2,
    ensures
        area_sum(f, x0, x1, y0, y2) == area_sum(f, x0, x1, y0, y1) + area_sum(f, x0, x1, y1, y2),
    decreases y2 - y1,
{
    if y1 < y2 {
        lemma_one_above(f, x0, x1, y0, y1, y2 - 1);
    }
}

} // verus!
