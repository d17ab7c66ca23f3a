//! The temporal filter of hidden reference frames: each block of the target is
//! blended with its motion-compensated neighbours in time, weighted by how well
//! they match.

use vstd::arithmetic::div_mod::{lemma_div_is_ordered, lemma_div_is_ordered_by_denominator};
use vstd::arithmetic::power2::*;
use std::collections::BTreeMap;
use std::sync::Arc;
use vstd::prelude::*;

use crate::mc::{interpolated, padded, put_8tap, tappable, Prediction};
use crate::plane::{Frame, Pixel, Plane, PlaneConfig, MAX_EXTENT};
use crate::util::{abs_i32, area_sum, iabs, iclamp, imin, lemma_shr_i32, row_sum, Grid};

verus! {

/// Half-extent of the whole-sample block search.
pub const SEARCH: isize = 4;

/// Filter block size, in luma samples.
pub const BLK: usize = 16;

/// Weight of the target's own samples: twice that of a perfectly matching
/// neighbour.
pub const CENTER_W: u32 = 32;

/// A block of the target's luma plane, cut off at the picture's edge.
#[derive(Clone, Copy, Debug, PartialEq, Eq, Structural)]
pub struct FilterBlock {
    pub bx: usize,
    pub by: usize,
    pub bw: usize,
    pub bh: usize,
}

impl FilterBlock {
    /// A block of at most 16x16 samples.
    pub open spec fn wf(self) -> bool {
        &&& self.bx <= MAX_EXTENT
        &&& self.by <= MAX_EXTENT
        &&& 0 < self.bw <= 16
        &&& 0 < self.bh <= 16
    }
}

/// The whole samples of a displacement in eighths of a luma sample, on a plane
/// that is subsampled `dec` times.
pub open spec fn whole(mv: int, dec: int) -> int {
    if dec == 0 { mv / 8 } else { mv / 16 }
}

/// The rest of the displacement, in sixteenths of a sample of the plane.
pub open spec fn sixteenths(mv: int, dec: int) -> int {
    if dec == 0 { (2 * mv) % 16 } else { mv % 16 }
}

/// Where a displaced block starts: its filter margin of three samples is held
/// between the padding and the far edge of the picture.
pub open spec fn displaced(pos: int, mv: int, dec: int, pad: int, extent: int) -> int {
    iclamp(pos + whole(mv, dec) - 3, -pad, extent) + 3
}

/// The sample at column `i`, row `j` of the `w` by `h` block at `(bx, by)` of
/// `src`, displaced by a motion vector in eighths of a luma sample.
#[verifier::opaque]
pub open spec fn compensated<T: Pixel>(src: &Plane<T>, bx: int, by: int, w: int, h: int, mv_row: int, mv_col: int, bit_depth: int, i: int, j: int) -> int {
    let c = src.cfg;
    interpolated(
        src,
        displaced(bx, mv_col, c.xdec as int, c.xpad as int, c.width as int) + i,
        displaced(by, mv_row, c.ydec as int, c.ypad as int, c.height as int) + j,
        sixteenths(mv_col, c.xdec as int),
        sixteenths(mv_row, c.ydec as int),
        w,
        h,
        bit_depth,
    )
}

/// Splits a displacement into whole samples and sixteenths.
fn split_mv(mv: i32, dec: usize) -> (r: (isize, i32))
    requires
        iabs(mv as int) <= 0x1000_0000,
        dec <= 1,
    ensures
        r.0 == whole(mv as int, dec as int),
        r.1 == sixteenths(mv as int, dec as int),
        0 <= r.1 <= 15,
{
    let doubled: i32 = if dec == 0 { mv * 2 } else { mv };
    proof {
        lemma2_to64();
        lemma_shr_i32(mv, 3);
        lemma_shr_i32(mv, 4);
        assert(doubled == (doubled >> 4u32) * 16 + (doubled & 0xf) && 0 <= (doubled & 0xf) < 16) by (bit_vector);
    }
    let off: i32 = if dec == 0 { mv >> 3u32 } else { mv >> 4u32 };
    (off as isize, doubled & 0xf)
}

/// Motion-compensates the `bw` by `bh` block of `src` at `(bx, by)`, displaced by
/// a motion vector in eighths of a luma sample, into `dst`.
fn mc_block<T: Pixel>(dst: &mut Prediction, src: &Plane<T>, bx: usize, by: usize, bw: usize, bh: usize, mv_row: i32, mv_col: i32, bit_depth: usize)
    requires
        padded(src, bit_depth as int),
        tappable(bw as int, bh as int),
        bx <= MAX_EXTENT,
        by <= MAX_EXTENT,
        iabs(mv_row as int) <= 0x1000_0000,
        iabs(mv_col as int) <= 0x1000_0000,
    ensures
        forall|i: int, j: int| 0 <= i < bw && 0 <= j < bh ==> {
            &&& #[trigger] final(dst).sample(i, j) == compensated(src, bx as int, by as int, bw as int, bh as int, mv_row as int, mv_col as int, bit_depth as int, i, j)
            &&& 0 <= final(dst).sample(i, j) <= pow2(bit_depth as nat) - 1
        },
{
    let (row_offset, row_frac): (isize, i32) = split_mv(mv_row, src.cfg.ydec);
    let (col_offset, col_frac): (isize, i32) = split_mv(mv_col, src.cfg.xdec);
    let x: isize = clamp_isize(bx as isize + col_offset - 3, -(src.cfg.xpad as isize), src.cfg.width as isize) + 3;
    let y: isize = clamp_isize(by as isize + row_offset - 3, -(src.cfg.ypad as isize), src.cfg.height as isize) + 3;
    put_8tap(dst, src, x, y, bw, bh, col_frac, row_frac, bit_depth);
    proof {
        reveal(compensated);
    }
}

fn clamp_isize(v: isize, lo: isize, hi: isize) -> (r: isize)
    requires
        lo <= hi,
    ensures
        r == iclamp(v as int, lo as int, hi as int),
{
    if v < lo { lo } else if v > hi { hi } else { v }
}

/// The differences between a block of the target and a block of predictions.
pub open spec fn block_error<T: Pixel>(tgt: &Plane<T>, b: FilterBlock, pred: Grid) -> Grid {
    |x: int, y: int| iabs(tgt.clamped(b.bx + x, b.by + y) - pred(x, y))
}

/// The sum of absolute differences between a block of the target and a block of
/// predictions.
pub open spec fn sad_of<T: Pixel>(tgt: &Plane<T>, b: FilterBlock, pred: Grid) -> int {
    area_sum(block_error(tgt, b, pred), 0, b.bw as int, 0, b.bh as int)
}

/// The sum of absolute differences between the target's block and an already
/// compensated block.
fn sad_mc<T: Pixel>(tgt: &Plane<T>, b: FilterBlock, pred: &Prediction, Ghost(g): Ghost<Grid>) -> (r: u64)
    requires
        tgt.wf(),
        b.wf(),
        forall|i: int, j: int| 0 <= i < b.bw && 0 <= j < b.bh ==> #[trigger] pred.sample(i, j) == g(i, j) && 0 <= pred.sample(i, j) <= 65535,
    ensures
        r == sad_of(tgt, b, g),
        r <= 0x100_0000,
{
    let ghost e = block_error(tgt, b, g);
    let mut sad: u64 = 0;
    let mut y: usize = 0;
    while y < b.bh
        invariant
            y <= b.bh,
            tgt.wf(),
            b.wf(),
            e == block_error(tgt, b, g),
            forall|i: int, j: int| 0 <= i < b.bw && 0 <= j < b.bh ==> #[trigger] pred.sample(i, j) == g(i, j) && 0 <= pred.sample(i, j) <= 65535,
            sad == area_sum(e, 0, b.bw as int, 0, y as int),
            sad <= 0x10_0000 * y,
        decreases b.bh - y,
    {
        let ghost sad0 = sad as int;
        let mut x: usize = 0;
        while x < b.bw
            invariant
                x <= b.bw,
                y < b.bh,
                tgt.wf(),
                b.wf(),
                e == block_error(tgt, b, g),
                forall|i: int, j: int| 0 <= i < b.bw && 0 <= j < b.bh ==> #[trigger] pred.sample(i, j) == g(i, j) && 0 <= pred.sample(i, j) <= 65535,
                sad == sad0 + row_sum(e, 0, x as int, y as int),
                0 <= sad0 <= 0x10_0000 * y,
                sad <= sad0 + 0x1_0000 * x,
            decreases b.bw - x,
        {
            assert(pred.sample(x as int, y as int) == g(x as int, y as int));
            let a: i32 = tgt.px((b.bx + x) as isize, (b.by + y) as isize);
            let p: i32 = pred.data[y * 16 + x];
            sad = sad + abs_i32(a - p) as u64;
            assert(e(x as int, y as int) == iabs(a - p));
            x = x + 1;
        }
        y = y + 1;
    }
    sad
}

/// The neighbour's samples at a displacement of whole samples.
pub open spec fn shifted<T: Pixel>(nb: &Plane<T>, b: FilterBlock, dx: int, dy: int) -> Grid {
    |x: int, y: int| nb.clamped(b.bx + x + dx, b.by + y + dy)
}

/// How badly the neighbour matches the target's block at a displacement of whole
/// samples.
pub open spec fn whole_cost<T: Pixel>(tgt: &Plane<T>, nb: &Plane<T>, b: FilterBlock) -> Grid {
    |dx: int, dy: int| sad_of(tgt, b, shifted(nb, b, dx, dy))
}

/// The sum of absolute differences at one displacement of whole samples.
fn sad_shifted<T: Pixel>(tgt: &Plane<T>, nb: &Plane<T>, b: FilterBlock, dx: isize, dy: isize) -> (r: u64)
    requires
        tgt.wf(),
        nb.wf(),
        b.wf(),
        -4 <= dx <= 4,
        -4 <= dy <= 4,
    ensures
        r == sad_of(tgt, b, shifted(nb, b, dx as int, dy as int)),
        r <= 0x100_0000,
{
    let ghost e = block_error(tgt, b, shifted(nb, b, dx as int, dy as int));
    let mut sad: u64 = 0;
    let mut y: usize = 0;
    while y < b.bh
        invariant
            y <= b.bh,
            tgt.wf(),
            nb.wf(),
            b.wf(),
            -4 <= dx <= 4,
            -4 <= dy <= 4,
            e == block_error(tgt, b, shifted(nb, b, dx as int, dy as int)),
            sad == area_sum(e, 0, b.bw as int, 0, y as int),
            sad <= 0x10_0000 * y,
        decreases b.bh - y,
    {
        let ghost sad0 = sad as int;
        let mut x: usize = 0;
        while x < b.bw
            invariant
                x <= b.bw,
                y < b.bh,
                tgt.wf(),
                nb.wf(),
                b.wf(),
                -4 <= dx <= 4,
                -4 <= dy <= 4,
                e == block_error(tgt, b, shifted(nb, b, dx as int, dy as int)),
                sad == sad0 + row_sum(e, 0, x as int, y as int),
                0 <= sad0 <= 0x10_0000 * y,
                sad <= sad0 + 0x1_0000 * x,
            decreases b.bw - x,
        {
            let a: i32 = tgt.px((b.bx + x) as isize, (b.by + y) as isize);
            let p: i32 = nb.px((b.bx + x) as isize + dx, (b.by + y) as isize + dy);
            sad = sad + abs_i32(a - p) as u64;
            assert(e(x as int, y as int) == iabs(a - p));
            x = x + 1;
        }
        y = y + 1;
    }
    sad
}

/// `(dx, dy)` comes before `(ex, ey)`: it costs less, or the same and is the
/// shorter displacement, or as long and earlier in raster order.
pub open spec fn precedes(cost: Grid, dx: int, dy: int, ex: int, ey: int) -> bool {
    let c = cost(dx, dy);
    let d = cost(ex, ey);
    let l = iabs(dx) + iabs(dy);
    let m = iabs(ex) + iabs(ey);
    ||| c < d
    ||| c == d && l < m
    ||| c == d && l == m && dy < ey
    ||| c == d && l == m && dy == ey && dx <= ex
}

/// A displacement within the search window.
pub open spec fn in_window(dx: int, dy: int) -> bool {
    -4 <= dx <= 4 && -4 <= dy <= 4
}

/// `(dx, dy)` is the first of the search window.
pub open spec fn is_best_match(cost: Grid, dx: int, dy: int) -> bool {
    &&& in_window(dx, dy)
    &&& forall|ex: int, ey: int| #[trigger] in_window(ex, ey) ==> precedes(cost, dx, dy, ex, ey)
}

/// The best match of the search window, column then row.
pub open spec fn best_match(cost: Grid) -> (int, int) {
    choose|m: (int, int)| #[trigger] is_best_match(cost, m.0, m.1)
}

/// No two displacements are both the first.
proof fn lemma_best_match_unique(cost: Grid, dx: int, dy: int)
    requires
        is_best_match(cost, dx, dy),
    ensures
        best_match(cost) == (dx, dy),
{
    let m = (dx, dy);
    assert(is_best_match(cost, m.0, m.1));
    let n = best_match(cost);
    assert(is_best_match(cost, n.0, n.1));
    assert(in_window(n.0, n.1) && in_window(dx, dy));
    assert(precedes(cost, dx, dy, n.0, n.1));
    assert(precedes(cost, n.0, n.1, dx, dy));
}

/// Full search over the window of whole-sample displacements, column then row.
fn search_integer<T: Pixel>(tgt: &Plane<T>, nb: &Plane<T>, b: FilterBlock) -> (r: (isize, isize))
    requires
        tgt.wf(),
        nb.wf(),
        b.wf(),
    ensures
        (r.0 as int, r.1 as int) == best_match(whole_cost(tgt, nb, b)),
        is_best_match(whole_cost(tgt, nb, b), r.0 as int, r.1 as int),
{
    let ghost cost = whole_cost(tgt, nb, b);
    let mut best: u64 = u64::MAX;
    let mut bdx: isize = 0;
    let mut bdy: isize = 0;
    let mut dy: isize = -SEARCH;
    while dy <= SEARCH
        invariant
            -4 <= dy <= 5,
            tgt.wf(),
            nb.wf(),
            b.wf(),
            cost == whole_cost(tgt, nb, b),
            dy == -4 ==> best == u64::MAX && bdx == 0 && bdy == 0,
            dy > -4 ==> best == cost(bdx as int, bdy as int) && in_window(bdx as int, bdy as int),
            forall|ex: int, ey: int| #[trigger] in_window(ex, ey) && ey < dy ==> precedes(cost, bdx as int, bdy as int, ex, ey),
            dy > -4 ==> bdy < dy,
            best <= 0x100_0000 || dy == -4,
        decreases 5 - dy,
    {
        let mut dx: isize = -SEARCH;
        while dx <= SEARCH
            invariant
                -4 <= dx <= 5,
                -4 <= dy <= 4,
                tgt.wf(),
                nb.wf(),
                b.wf(),
                cost == whole_cost(tgt, nb, b),
                dy == -4 && dx == -4 ==> best == u64::MAX && bdx == 0 && bdy == 0,
                dy > -4 || dx > -4 ==> best == cost(bdx as int, bdy as int) && in_window(bdx as int, bdy as int),
                forall|ex: int, ey: int| #[trigger] in_window(ex, ey) && (ey < dy || ey == dy && ex < dx) ==> precedes(cost, bdx as int, bdy as int, ex, ey),
                dy > -4 || dx > -4 ==> (bdy < dy || bdy == dy && bdx < dx),
                best <= 0x100_0000 || dy == -4 && dx == -4,
            decreases 5 - dx,
        {
            let sad: u64 = sad_shifted(tgt, nb, b, dx, dy);
            assert(sad == cost(dx as int, dy as int));
            if sad < best || (sad == best && abs_isize(dx) + abs_isize(dy) < abs_isize(bdx) + abs_isize(bdy)) {
                best = sad;
                bdx = dx;
                bdy = dy;
            }
            dx = dx + 1;
        }
        dy = dy + 1;
    }
    proof {
        lemma_best_match_unique(cost, bdx as int, bdy as int);
    }
    (bdx, bdy)
}

fn abs_isize(v: isize) -> (r: isize)
    requires
        -4 <= v <= 4,
    ensures
        r == iabs(v as int),
{
    if v < 0 { -v } else { v }
}

/// The neighbour's compensated samples at a motion vector.
pub open spec fn moved<T: Pixel>(nb: &Plane<T>, b: FilterBlock, mv_row: int, mv_col: int, bit_depth: int) -> Grid {
    |x: int, y: int| compensated(nb, b.bx as int, b.by as int, b.bw as int, b.bh as int, mv_row, mv_col, bit_depth, x, y)
}

/// How badly the neighbour matches the target's block at a motion vector, row
/// then column.
pub open spec fn moved_cost<T: Pixel>(tgt: &Plane<T>, nb: &Plane<T>, b: FilterBlock, bit_depth: int) -> Grid {
    |row: int, col: int| sad_of(tgt, b, moved(nb, b, row, col, bit_depth))
}

/// The eight directions of a refinement step, in the order they are tried.
pub open spec fn direction(k: int) -> (int, int) {
    if k == 0 {
        (-1, 0)
    } else if k == 1 {
        (1, 0)
    } else if k == 2 {
        (0, -1)
    } else if k == 3 {
        (0, 1)
    } else if k == 4 {
        (-1, -1)
    } else if k == 5 {
        (-1, 1)
    } else if k == 6 {
        (1, -1)
    } else {
        (1, 1)
    }
}

/// The best of a vector and the first `k` of its neighbours at distance `step`,
/// with its cost: a neighbour takes over where it costs strictly less.
pub open spec fn probe(cost: Grid, row: int, col: int, best: int, step: int, k: int) -> (int, int, int)
    decreases k,
{
    if k <= 0 {
        (row, col, best)
    } else {
        let p = probe(cost, row, col, best, step, k - 1);
        let r = row + step * direction(k - 1).0;
        let c = col + step * direction(k - 1).1;
        if cost(r, c) < p.2 { (r, c, cost(r, c)) } else { p }
    }
}

/// Steps to the best neighbour as long as one costs less.
pub open spec fn settle(cost: Grid, row: int, col: int, best: int, step: int) -> (int, int, int)
    decreases best,
{
    let p = probe(cost, row, col, best, step, 8);
    if 0 <= p.2 < best { settle(cost, p.0, p.1, p.2, step) } else { (row, col, best) }
}

/// A vector refined to half, quarter and then eighth samples, with its cost.
pub open spec fn refined(cost: Grid, row: int, col: int) -> (int, int, int) {
    let half = settle(cost, row, col, cost(row, col), 4);
    let quarter = settle(cost, half.0, half.1, half.2, 2);
    settle(cost, quarter.0, quarter.1, quarter.2, 1)
}

/// The rule answers for every pair of costs, and always the same.
pub open spec fn decisive<R: Fn(u64, u64) -> bool>(rule: &R) -> bool {
    &&& forall|whole: u64, best: u64| #[trigger] call_requires(*rule, (whole, best))
    &&& forall|whole: u64, best: u64|
        !(#[trigger] call_ensures(*rule, (whole, best), true) && call_ensures(*rule, (whole, best), false))
}

/// The rule takes a refinement from cost `whole` to cost `best`: it is worth its
/// interpolation.
pub open spec fn takes<R: Fn(u64, u64) -> bool>(rule: &R, whole: int, best: int) -> bool {
    call_ensures(*rule, (whole as u64, best as u64), true)
}

/// The rule takes every refinement that does not cost more: no margin is asked.
pub open spec fn takes_every_gain<R: Fn(u64, u64) -> bool>(rule: &R) -> bool {
    forall|whole: u64, best: u64| best <= whole ==> #[trigger] call_ensures(*rule, (whole, best), true)
}

/// No vector at distance one eighth of a sample costs less.
pub open spec fn locally_least(cost: Grid, row: int, col: int) -> bool {
    forall|r: int, c: int| row - 1 <= r <= row + 1 && col - 1 <= c <= col + 1 ==> cost(row, col) <= #[trigger] cost(r, c)
}

/// A probe finds a vector near the start whose cost is the one it reports, and
/// that is no higher than the start's.
proof fn lemma_probe(cost: Grid, row: int, col: int, best: int, step: int, k: int)
    requires
        0 <= k <= 8,
        0 < step,
        best == cost(row, col),
    ensures
        ({
            let p = probe(cost, row, col, best, step, k);
            &&& p.2 == cost(p.0, p.1)
            &&& p.2 <= best
            &&& row - step <= p.0 <= row + step
            &&& col - step <= p.1 <= col + step
            &&& p.2 == best ==> p.0 == row && p.1 == col
        }),
    decreases k,
{
    if k > 0 {
        lemma_probe(cost, row, col, best, step, k - 1);
        let d = direction(k - 1);
        assert(-step <= step * d.0 <= step && -step <= step * d.1 <= step) by (nonlinear_arith)
            requires 0 < step, -1 <= d.0 <= 1, -1 <= d.1 <= 1,
        ;
    }
}

/// Settling ends at a vector whose cost is the one it reports, and that is no
/// higher than the start's.
proof fn lemma_settle(cost: Grid, row: int, col: int, best: int, step: int)
    requires
        0 < step,
        best == cost(row, col),
        best >= 0,
    ensures
        ({
            let p = settle(cost, row, col, best, step);
            p.2 == cost(p.0, p.1) && 0 <= p.2 <= best
        }),
    decreases best,
{
    let p = probe(cost, row, col, best, step, 8);
    lemma_probe(cost, row, col, best, step, 8);
    if 0 <= p.2 < best {
        lemma_settle(cost, p.0, p.1, p.2, step);
    }
}

/// No neighbour that a probe tried costs less than what it reports.
proof fn lemma_probe_least(cost: Grid, row: int, col: int, best: int, step: int, k: int, j: int)
    requires
        0 <= j < k <= 8,
    ensures
        probe(cost, row, col, best, step, k).2 <= cost(row + step * direction(j).0, col + step * direction(j).1),
    decreases k,
{
    if j < k - 1 {
        lemma_probe_least(cost, row, col, best, step, k - 1, j);
    }
}

/// Settling in eighths of a sample ends where no neighbour costs less.
proof fn lemma_settle_least(cost: Grid, row: int, col: int, best: int)
    requires
        forall|r: int, c: int| #[trigger] cost(r, c) >= 0,
        best == cost(row, col),
    ensures
        ({
            let p = settle(cost, row, col, best, 1);
            locally_least(cost, p.0, p.1)
        }),
    decreases best,
{
    let p = probe(cost, row, col, best, 1, 8);
    lemma_probe(cost, row, col, best, 1, 8);
    if 0 <= p.2 < best {
        lemma_settle_least(cost, p.0, p.1, p.2);
    } else {
        assert forall|r: int, c: int| row - 1 <= r <= row + 1 && col - 1 <= c <= col + 1 implies cost(row, col) <= #[trigger] cost(r, c) by {
            let dr = r - row;
            let dc = c - col;
            if dr != 0 || dc != 0 {
                let j = if dc == 0 {
                    if dr < 0 { 0int } else { 1 }
                } else if dr == 0 {
                    if dc < 0 { 2int } else { 3 }
                } else if dr < 0 {
                    if dc < 0 { 4int } else { 5 }
                } else {
                    if dc < 0 { 6int } else { 7 }
                };
                assert(direction(j) == (dr, dc));
                lemma_probe_least(cost, row, col, best, 1, 8, j);
                assert(1 * dr == dr && 1 * dc == dc);
            }
        }
    }
}

/// A refined vector is a local minimum: none of the eight vectors at distance one
/// eighth of a sample costs less. A vector that matches exactly stays.
pub proof fn law_refined_is_a_local_minimum(cost: Grid, row: int, col: int)
    requires
        forall|r: int, c: int| #[trigger] cost(r, c) >= 0,
    ensures
        ({
            let p = refined(cost, row, col);
            &&& locally_least(cost, p.0, p.1)
            &&& cost(row, col) == 0 ==> p == (row, col, 0int)
        }),
{
    let start = cost(row, col);
    lemma_settle(cost, row, col, start, 4);
    let half = settle(cost, row, col, start, 4);
    lemma_settle(cost, half.0, half.1, half.2, 2);
    let quarter = settle(cost, half.0, half.1, half.2, 2);
    lemma_settle_least(cost, quarter.0, quarter.1, quarter.2);
    if start == 0 {
        lemma_probe(cost, row, col, 0, 4, 8);
        lemma_probe(cost, row, col, 0, 2, 8);
        lemma_probe(cost, row, col, 0, 1, 8);
    }
}

/// A refined vector never matches worse than the one it started from.
pub proof fn law_refinement_never_matches_worse(cost: Grid, row: int, col: int)
    requires
        forall|r: int, c: int| #[trigger] cost(r, c) >= 0,
    ensures
        ({
            let p = refined(cost, row, col);
            p.2 == cost(p.0, p.1) && p.2 <= cost(row, col)
        }),
{
    let start = cost(row, col);
    lemma_settle(cost, row, col, start, 4);
    let half = settle(cost, row, col, start, 4);
    lemma_settle(cost, half.0, half.1, half.2, 2);
    let quarter = settle(cost, half.0, half.1, half.2, 2);
    lemma_settle(cost, quarter.0, quarter.1, quarter.2, 1);
}

/// The cost of one motion vector.
fn cost_at<T: Pixel>(tgt: &Plane<T>, nb: &Plane<T>, b: FilterBlock, row: i32, col: i32, bit_depth: usize) -> (r: u64)
    requires
        tgt.wf(),
        padded(nb, bit_depth as int),
        b.wf(),
        tappable(b.bw as int, b.bh as int),
        iabs(row as int) <= 0x1000_0000,
        iabs(col as int) <= 0x1000_0000,
    ensures
        r == moved_cost(tgt, nb, b, bit_depth as int)(row as int, col as int),
        r <= 0x100_0000,
{
    let mut tmp: Prediction = Prediction { data: [0; 256] };
    mc_block(&mut tmp, nb, b.bx, b.by, b.bw, b.bh, row, col, bit_depth);
    proof {
        lemma2_to64();
    }
    sad_mc(tgt, b, &tmp, Ghost(moved(nb, b, row as int, col as int, bit_depth as int)))
}

/// The offsets of one direction of a refinement step.
fn direction_of(k: usize) -> (r: (i32, i32))
    requires
        k < 8,
    ensures
        (r.0 as int, r.1 as int) == direction(k as int),
        -1 <= r.0 <= 1,
        -1 <= r.1 <= 1,
{
    if k == 0 {
        (-1, 0)
    } else if k == 1 {
        (1, 0)
    } else if k == 2 {
        (0, -1)
    } else if k == 3 {
        (0, 1)
    } else if k == 4 {
        (-1, -1)
    } else if k == 5 {
        (-1, 1)
    } else if k == 6 {
        (1, -1)
    } else {
        (1, 1)
    }
}

/// Steps to the best neighbour at distance `step` as long as one costs less.
fn settle_at<T: Pixel>(tgt: &Plane<T>, nb: &Plane<T>, b: FilterBlock, start: (i32, i32, u64), step: i32, bit_depth: usize) -> (r: (i32, i32, u64))
    requires
        tgt.wf(),
        padded(nb, bit_depth as int),
        b.wf(),
        tappable(b.bw as int, b.bh as int),
        1 <= step <= 4,
        start.2 <= 0x100_0000,
        start.2 == moved_cost(tgt, nb, b, bit_depth as int)(start.0 as int, start.1 as int),
        iabs(start.0 as int) + 4 * start.2 <= 0x800_0000,
        iabs(start.1 as int) + 4 * start.2 <= 0x800_0000,
    ensures
        (r.0 as int, r.1 as int, r.2 as int) == settle(moved_cost(tgt, nb, b, bit_depth as int), start.0 as int, start.1 as int, start.2 as int, step as int),
        r.2 == moved_cost(tgt, nb, b, bit_depth as int)(r.0 as int, r.1 as int),
        r.2 <= start.2,
        iabs(r.0 as int) + 4 * r.2 <= 0x800_0000,
        iabs(r.1 as int) + 4 * r.2 <= 0x800_0000,
{
    let ghost cost = moved_cost(tgt, nb, b, bit_depth as int);
    let ghost goal = settle(cost, start.0 as int, start.1 as int, start.2 as int, step as int);
    let (mut row, mut col, mut best): (i32, i32, u64) = start;
    let mut improved: bool = true;
    while improved
        invariant
            tgt.wf(),
            padded(nb, bit_depth as int),
            b.wf(),
            tappable(b.bw as int, b.bh as int),
            1 <= step <= 4,
            cost == moved_cost(tgt, nb, b, bit_depth as int),
            best <= start.2 <= 0x100_0000,
            best == cost(row as int, col as int),
            iabs(row as int) + 4 * best <= 0x800_0000,
            iabs(col as int) + 4 * best <= 0x800_0000,
            improved ==> settle(cost, row as int, col as int, best as int, step as int) == goal,
            !improved ==> goal == (row as int, col as int, best as int),
        decreases best + if improved { 1int } else { 0 },
    {
        let mut br: i32 = row;
        let mut bc: i32 = col;
        let mut low: u64 = best;
        let mut k: usize = 0;
        while k < 8
            invariant
                k <= 8,
                tgt.wf(),
                padded(nb, bit_depth as int),
                b.wf(),
                tappable(b.bw as int, b.bh as int),
                1 <= step <= 4,
                cost == moved_cost(tgt, nb, b, bit_depth as int),
                low <= best <= 0x100_0000,
                iabs(row as int) <= 0x800_0000,
                iabs(col as int) <= 0x800_0000,
                (br as int, bc as int, low as int) == probe(cost, row as int, col as int, best as int, step as int, k as int),
            decreases 8 - k,
        {
            let (dr, dc): (i32, i32) = direction_of(k);
            assert(-4 <= step * dr <= 4 && -4 <= step * dc <= 4) by (nonlinear_arith)
                requires 1 <= step <= 4, -1 <= dr <= 1, -1 <= dc <= 1,
            ;
            let r: i32 = row + step * dr;
            let c: i32 = col + step * dc;
            let sad: u64 = cost_at(tgt, nb, b, r, c, bit_depth);
            if sad < low {
                low = sad;
                br = r;
                bc = c;
            }
            k = k + 1;
        }
        proof {
            lemma_probe(cost, row as int, col as int, best as int, step as int, 8);
        }
        improved = low < best;
        row = br;
        col = bc;
        best = low;
    }
    (row, col, best)
}

/// Refines a whole-sample match to eighths of a sample, and keeps the refinement
/// if the rule takes it.
pub fn refine_subpel<T: Pixel, R: Fn(u64, u64) -> bool>(tgt: &Plane<T>, nb: &Plane<T>, b: FilterBlock, row: i32, col: i32, rule: &R, bit_depth: usize) -> (r: (i32, i32))
    requires
        decisive(rule),
        tgt.wf(),
        padded(nb, bit_depth as int),
        b.wf(),
        tappable(b.bw as int, b.bh as int),
        iabs(row as int) <= 0x400_0000,
        iabs(col as int) <= 0x400_0000,
    ensures
        ({
            let cost = moved_cost(tgt, nb, b, bit_depth as int);
            let p = refined(cost, row as int, col as int);
            &&& (r.0 as int, r.1 as int) == if takes(rule, cost(row as int, col as int), p.2) { (p.0, p.1) } else { (row as int, col as int) }
            &&& cost(r.0 as int, r.1 as int) <= cost(row as int, col as int)
            &&& cost(row as int, col as int) == 0 ==> r.0 == row && r.1 == col
            &&& takes_every_gain(rule) ==> locally_least(cost, r.0 as int, r.1 as int)
        }),
        iabs(r.0 as int) <= 0x800_0000,
        iabs(r.1 as int) <= 0x800_0000,
{
    let start: u64 = cost_at(tgt, nb, b, row, col, bit_depth);
    let half: (i32, i32, u64) = settle_at(tgt, nb, b, (row, col, start), 4, bit_depth);
    let quarter: (i32, i32, u64) = settle_at(tgt, nb, b, half, 2, bit_depth);
    let eighth: (i32, i32, u64) = settle_at(tgt, nb, b, quarter, 1, bit_depth);
    proof {
        let cost = moved_cost(tgt, nb, b, bit_depth as int);
        assert forall|r: int, c: int| #[trigger] cost(r, c) >= 0 by {
            lemma_sad_not_negative(tgt, b, moved(nb, b, r, c, bit_depth as int));
        }
        law_refinement_never_matches_worse(cost, row as int, col as int);
        law_refined_is_a_local_minimum(cost, row as int, col as int);
    }
    let taken: bool = (*rule)(start, eighth.2);
    proof {
        if takes_every_gain(rule) {
            assert(call_ensures(*rule, (start, eighth.2), true));
            assert(taken);
        }
    }
    if taken { (eighth.0, eighth.1) } else { (row, col) }
}

/// The motion vector of a block against one neighbour, row then column.
#[verifier::opaque]
pub open spec fn block_motion<T: Pixel, R: Fn(u64, u64) -> bool>(tgt: &Plane<T>, nb: &Plane<T>, b: FilterBlock, subpel: bool, rule: &R, bit_depth: int) -> (int, int) {
    let m = best_match(whole_cost(tgt, nb, b));
    let row = m.1 * 8;
    let col = m.0 * 8;
    let cost = moved_cost(tgt, nb, b, bit_depth);
    let p = refined(cost, row, col);
    if subpel && takes(rule, cost(row, col), p.2) { (p.0, p.1) } else { (row, col) }
}

/// The motion vector of a block against one neighbour.
fn motion_of<T: Pixel, R: Fn(u64, u64) -> bool>(tgt: &Plane<T>, nb: &Plane<T>, b: FilterBlock, subpel: bool, rule: &R, bit_depth: usize) -> (r: (i32, i32))
    requires
        subpel ==> decisive(rule),
        tgt.wf(),
        padded(nb, bit_depth as int),
        b.wf(),
        subpel ==> tappable(b.bw as int, b.bh as int),
    ensures
        (r.0 as int, r.1 as int) == block_motion(tgt, nb, b, subpel, rule, bit_depth as int),
        iabs(r.0 as int) <= 0x800_0000,
        iabs(r.1 as int) <= 0x800_0000,
{
    proof {
        reveal(block_motion);
    }
    let (dx, dy): (isize, isize) = search_integer(tgt, nb, b);
    let row: i32 = dy as i32 * 8;
    let col: i32 = dx as i32 * 8;
    if subpel { refine_subpel(tgt, nb, b, row, col, rule, bit_depth) } else { (row, col) }
}

/// The weight of a neighbour's sample: sixteen where it agrees with the target,
/// falling to zero as the squared difference grows; `strength` widens the range
/// of differences that count as noise.
pub open spec fn weight_of(diff: int, strength: int) -> int {
    16 - imin((diff * diff * 3) / pow2(strength as nat) as int, 16)
}

/// The weight of a neighbour's sample that differs by `diff`: 16 for an equal
/// sample, less the more it differs, down to nothing.
pub fn weight(diff: i32, strength: u32) -> (r: u32)
    requires
        -26754 <= diff <= 26754,
        strength < 32,
    ensures
        r == weight_of(diff as int, strength as int),
        r <= 16,
        diff == 0 ==> r == 16,
{
    assert(0 <= diff * diff <= 26754 * 26754) by (nonlinear_arith)
        requires -26754 <= diff <= 26754,
    ;
    let v: i32 = diff * diff * 3;
    proof {
        lemma_shr_i32(v, strength);
        lemma_pow2_pos(strength as nat);
        assert(v as int / pow2(strength as nat) as int >= 0) by (nonlinear_arith)
            requires v >= 0, pow2(strength as nat) > 0,
        ;
        law_weight_falls_with_the_difference(diff as int, diff as int, strength as int, strength as int);
    }
    let q: i32 = v >> strength;
    let m: i32 = if q < 16 { q } else { 16 };
    (16 - m) as u32
}

/// The weighted sum of the target's sample `c` and `n` neighbours' samples.
pub open spec fn weighted_sum(c: int, v: spec_fn(int) -> int, strength: int, n: int) -> int
    decreases n,
{
    if n <= 0 {
        c * 32
    } else {
        weighted_sum(c, v, strength, n - 1) + v(n - 1) * weight_of(c - v(n - 1), strength)
    }
}

/// The weights of the target's sample `c` and `n` neighbours' samples.
pub open spec fn total_weight(c: int, v: spec_fn(int) -> int, strength: int, n: int) -> int
    decreases n,
{
    if n <= 0 { 32 } else { total_weight(c, v, strength, n - 1) + weight_of(c - v(n - 1), strength) }
}

/// The weighted mean, rounded half up and held to the bit depth.
#[verifier::opaque]
pub open spec fn blended(c: int, v: spec_fn(int) -> int, strength: int, n: int, maxval: int) -> int {
    let w = total_weight(c, v, strength, n);
    iclamp((weighted_sum(c, v, strength, n) + w / 2) / w, 0, maxval)
}

/// The predictions at column `x`, row `y` are `v`, within `pmax`.
spec fn column_holds(preds: Seq<Prediction>, x: int, y: int, v: spec_fn(int) -> int, pmax: int) -> bool {
    forall|n: int| 0 <= n < preds.len() ==> (#[trigger] preds[n]).sample(x, y) == v(n) && 0 <= v(n) <= pmax
}

/// The predictions of a `w` by `h` block are those of `stack`, within `pmax`.
spec fn stack_holds(preds: Seq<Prediction>, stack: Stack, w: int, h: int, pmax: int) -> bool {
    forall|n: int, i: int, j: int| 0 <= n < preds.len() && 0 <= i < w && 0 <= j < h ==> #[trigger] cell_holds(preds[n], stack(n), i, j, pmax)
}

/// A prediction is `f` at column `i`, row `j`, within `pmax`.
spec fn cell_holds(p: Prediction, f: Grid, i: int, j: int, pmax: int) -> bool {
    p.sample(i, j) == f(i, j) && 0 <= f(i, j) <= pmax
}

/// The blend of one sample with the predictions at column `x`, row `y`.
fn blend<T: Pixel>(c: i32, preds: &Vec<Prediction>, x: usize, y: usize, strength: u32, bit_depth: usize, Ghost(v): Ghost<spec_fn(int) -> int>) -> (r: T)
    requires
        bit_depth == 8 || bit_depth == 10 || bit_depth == 12,
        pow2(bit_depth as nat) - 1 <= T::max_val(),
        0 <= c <= pow2(bit_depth as nat) - 1,
        x < 16,
        y < 16,
        strength < 32,
        preds.len() <= 65536,
        column_holds(preds@, x as int, y as int, v, pow2(bit_depth as nat) - 1),
    ensures
        r.val() == blended(c as int, v, strength as int, preds.len() as int, pow2(bit_depth as nat) - 1),
{
    proof {
        lemma2_to64();
        reveal(blended);
    }
    let maxval: i32 = if bit_depth == 8 { 255 } else if bit_depth == 10 { 1023 } else { 4095 };
    let mut acc: u32 = c as u32 * CENTER_W;
    let mut cnt: u32 = CENTER_W;
    let mut n: usize = 0;
    while n < preds.len()
        invariant
            n <= preds.len() <= 65536,
            maxval == pow2(bit_depth as nat) - 1,
            maxval <= 4095,
            0 <= c <= maxval,
            x < 16,
            y < 16,
            strength < 32,
            column_holds(preds@, x as int, y as int, v, pow2(bit_depth as nat) - 1),
            acc == weighted_sum(c as int, v, strength as int, n as int),
            cnt == total_weight(c as int, v, strength as int, n as int),
            acc <= 131040 + 65520 * n,
            32 <= cnt <= 32 + 16 * n,
        decreases preds.len() - n,
    {
        assert(preds@[n as int].sample(x as int, y as int) == v(n as int));
        let p: i32 = preds[n].data[y * 16 + x];
        let wt: u32 = weight(c - p, strength);
        assert(0 <= p * wt <= 65520) by (nonlinear_arith)
            requires 0 <= p <= 4095, 0 <= wt <= 16,
        ;
        acc = acc + p as u32 * wt;
        cnt = cnt + wt;
        n = n + 1;
    }
    let q: u32 = (acc + cnt / 2) / cnt;
    assert(32 * q <= acc + cnt / 2) by (nonlinear_arith)
        requires q as int == (acc + cnt / 2) / (cnt as int), cnt >= 32,
    ;
    let val: i32 = q as i32;
    let held: i32 = if val > maxval { maxval } else { val };
    T::cast_from(held)
}

/// Side of a filter block on a plane that is subsampled `dec` times.
pub open spec fn side(dec: int) -> int {
    if dec == 0 { 16 } else { 8 }
}

/// The value of each neighbour at each place of a block of a plane.
pub type Stack = spec_fn(int) -> Grid;

/// Blends one block of a plane.
fn filter_plane_block<T: Pixel>(
    out: &mut Plane<T>,
    tgt: &Plane<T>,
    preds: &Vec<Prediction>,
    pbx: usize,
    pby: usize,
    pbw: usize,
    pbh: usize,
    strength: u32,
    bit_depth: usize,
    Ghost(stack): Ghost<Stack>,
)
    requires
        padded(tgt, bit_depth as int),
        old(out).wf(),
        old(out).cfg == tgt.cfg,
        0 < pbw <= 16,
        0 < pbh <= 16,
        pbx + pbw <= tgt.cfg.width,
        pby + pbh <= tgt.cfg.height,
        strength < 32,
        preds.len() <= 65536,
        stack_holds(preds@, stack, pbw as int, pbh as int, pow2(bit_depth as nat) - 1),
    ensures
        final(out).wf(),
        final(out).cfg == tgt.cfg,
        forall|i: int, j: int| 0 <= i < pbw && 0 <= j < pbh ==> #[trigger] final(out).sample(pbx + i, pby + j) == blended(
            tgt.sample(pbx + i, pby + j),
            |n: int| stack(n)(i, j),
            strength as int,
            preds.len() as int,
            pow2(bit_depth as nat) - 1,
        ),
        forall|u: int, v: int| tgt.cfg.has(u, v) && !(pbx <= u < pbx + pbw && pby <= v < pby + pbh) ==>
            #[trigger] final(out).sample(u, v) == old(out).sample(u, v),
{
    let ghost orig = *out;
    let ghost pmax = pow2(bit_depth as nat) - 1;
    let mut y: usize = 0;
    while y < pbh
        invariant
            y <= pbh,
            padded(tgt, bit_depth as int),
            out.wf(),
            out.cfg == tgt.cfg,
            0 < pbw <= 16,
            0 < pbh <= 16,
            pbx + pbw <= tgt.cfg.width,
            pby + pbh <= tgt.cfg.height,
            strength < 32,
            preds.len() <= 65536,
            pmax == pow2(bit_depth as nat) - 1,
            stack_holds(preds@, stack, pbw as int, pbh as int, pow2(bit_depth as nat) - 1),
            forall|i: int, j: int| 0 <= i < pbw && 0 <= j < y ==> #[trigger] out.sample(pbx + i, pby + j) == blended(
                tgt.sample(pbx + i, pby + j), |n: int| stack(n)(i, j), strength as int, preds.len() as int, pmax),
            forall|u: int, v: int| tgt.cfg.has(u, v) && !(pbx <= u < pbx + pbw && pby <= v < pby + y) ==>
                #[trigger] out.sample(u, v) == orig.sample(u, v),
        decreases pbh - y,
    {
        let mut x: usize = 0;
        while x < pbw
            invariant
                x <= pbw,
                y < pbh,
                padded(tgt, bit_depth as int),
                out.wf(),
                out.cfg == tgt.cfg,
                0 < pbw <= 16,
                0 < pbh <= 16,
                pbx + pbw <= tgt.cfg.width,
                pby + pbh <= tgt.cfg.height,
                strength < 32,
                preds.len() <= 65536,
                pmax == pow2(bit_depth as nat) - 1,
                stack_holds(preds@, stack, pbw as int, pbh as int, pow2(bit_depth as nat) - 1),
                forall|i: int, j: int| 0 <= i < pbw && 0 <= j && (j < y || j == y && i < x) ==> #[trigger] out.sample(pbx + i, pby + j) == blended(
                    tgt.sample(pbx + i, pby + j), |n: int| stack(n)(i, j), strength as int, preds.len() as int, pmax),
                forall|u: int, v: int| tgt.cfg.has(u, v) && !(pbx <= u < pbx + pbw && pby <= v < pby + y) && !(v == pby + y && pbx <= u < pbx + x) ==>
                    #[trigger] out.sample(u, v) == orig.sample(u, v),
            decreases pbw - x,
        {
            let c: i32 = tgt.px((pbx + x) as isize, (pby + y) as isize);
            assert(tgt.samples_at_most(pmax));
            let ghost v = |n: int| stack(n)(x as int, y as int);
            proof {
                assert forall|n: int| 0 <= n < preds.len() implies (#[trigger] preds@[n]).sample(x as int, y as int) == v(n) && 0 <= v(n) <= pmax by {
                    assert(cell_holds(preds@[n], stack(n), x as int, y as int, pmax));
                }
                assert(column_holds(preds@, x as int, y as int, v, pmax));
            }
            let val: T = blend(c, preds, x, y, strength, bit_depth, Ghost(v));
            let ghost before = *out;
            out.set((pbx + x) as isize, (pby + y) as isize, val);
            proof {
                assert forall|i: int, j: int| 0 <= i < pbw && 0 <= j && (j < y || j == y && i < x + 1) implies #[trigger] out.sample(pbx + i, pby + j) == blended(
                    tgt.sample(pbx + i, pby + j), |n: int| stack(n)(i, j), strength as int, preds.len() as int, pmax) by {
                    if j < y || i < x {
                        assert(before.cfg.has(pbx + i, pby + j));
                        assert(out.sample(pbx + i, pby + j) == before.sample(pbx + i, pby + j));
                    }
                }
            }
            x = x + 1;
        }
        y = y + 1;
    }
}

/// The block of luma samples at `(bx, by)` of a picture of `w` by `h`.
pub open spec fn luma_block(w: usize, h: usize, bx: int, by: int) -> FilterBlock {
    FilterBlock { bx: bx as usize, by: by as usize, bw: imin(16, w - bx) as usize, bh: imin(16, h - by) as usize }
}

/// A picture that can be filtered: its planes are padded, and the chroma planes
/// cover the luma plane.
pub open spec fn target_ok<T: Pixel>(f: &Frame<T>, bit_depth: int) -> bool {
    &&& 0 < f.planes.len()
    &&& f.planes@[0].cfg.xdec == 0
    &&& f.planes@[0].cfg.ydec == 0
    &&& forall|p: int| 0 <= p < f.planes.len() ==> padded(#[trigger] &f.planes@[p], bit_depth)
    &&& forall|p: int| 0 <= p < f.planes.len() ==> covers_luma((#[trigger] f.planes@[p]).cfg, f.planes@[0].cfg)
}

/// A picture whose visible samples respect the bit depth.
pub open spec fn in_depth<T: Pixel>(f: &Frame<T>, bit_depth: int) -> bool {
    &&& 0 < f.planes.len()
    &&& 0 <= bit_depth <= 30
    &&& forall|p: int| 0 <= p < f.planes.len() ==> (#[trigger] f.planes@[p]).visible_at_most(pow2(bit_depth as nat) - 1)
}

/// A plane of a subsampled picture has as many samples as its luma plane needs.
pub open spec fn covers_luma(c: PlaneConfig, luma: PlaneConfig) -> bool {
    &&& c.width == if c.xdec == 0 { luma.width as int } else { (luma.width + 1) / 2 }
    &&& c.height == if c.ydec == 0 { luma.height as int } else { (luma.height + 1) / 2 }
}

/// A neighbour that can be blended in: its planes are padded and subsampled as
/// the target's.
pub open spec fn neighbour_ok<T: Pixel>(f: &Frame<T>, tgt: &Frame<T>, bit_depth: int) -> bool {
    &&& f.planes.len() == tgt.planes.len()
    &&& forall|p: int| 0 <= p < f.planes.len() ==> padded(#[trigger] &f.planes@[p], bit_depth)
    &&& forall|p: int| 0 <= p < f.planes.len() ==> (#[trigger] f.planes@[p]).cfg.xdec == tgt.planes@[p].cfg.xdec && f.planes@[p].cfg.ydec == tgt.planes@[p].cfg.ydec
}

/// Blocks at the right and bottom edge can be interpolated.
pub open spec fn edges_tappable(c: PlaneConfig) -> bool {
    &&& c.width % 16 == 0 || c.width % 16 == 2 || c.width % 16 == 4 || c.width % 16 == 8
    &&& c.height % 2 == 0
}

/// The prediction of neighbour `n` at a place of plane `p`: found by the motion
/// of the luma block that the place belongs to.
pub open spec fn predicted<T: Pixel, R: Fn(u64, u64) -> bool>(
    tgt: &Frame<T>,
    nbs: Seq<&Frame<T>>,
    subpel: bool,
    rule: &R,
    bit_depth: int,
    p: int,
    kx: int,
    ky: int,
) -> Stack {
    let c = tgt.planes@[p].cfg;
    let sx = side(c.xdec as int);
    let sy = side(c.ydec as int);
    let luma = tgt.planes@[0];
    let b = luma_block(luma.cfg.width, luma.cfg.height, 16 * kx, 16 * ky);
    |n: int| {
        let mv = block_motion(&luma, &nbs[n].planes@[0], b, subpel, rule, bit_depth);
        |i: int, j: int| compensated(&nbs[n].planes@[p], sx * kx, sy * ky, sx, sy, mv.0, mv.1, bit_depth, i, j)
    }
}

/// The filtered picture's sample at `(x, y)` of plane `p`.
pub open spec fn filtered<T: Pixel, R: Fn(u64, u64) -> bool>(
    tgt: &Frame<T>,
    nbs: Seq<&Frame<T>>,
    strength: int,
    subpel: bool,
    rule: &R,
    bit_depth: int,
    p: int,
    x: int,
    y: int,
) -> int {
    let c = tgt.planes@[p].cfg;
    let sx = side(c.xdec as int);
    let sy = side(c.ydec as int);
    let stack = predicted(tgt, nbs, subpel, rule, bit_depth, p, x / sx, y / sy);
    blended(
        tgt.planes@[p].sample(x, y),
        |n: int| stack(n)(x % sx, y % sy),
        strength,
        nbs.len() as int,
        pow2(bit_depth as nat) - 1,
    )
}

/// The block `(kx, ky)` of plane `p` is filtered in `out`.
spec fn plane_block_done<T: Pixel, R: Fn(u64, u64) -> bool>(
    out: &Plane<T>,
    tgt: &Frame<T>,
    nbs: Seq<&Frame<T>>,
    strength: int,
    subpel: bool,
    rule: &R,
    bit_depth: int,
    p: int,
    kx: int,
    ky: int,
) -> bool {
    let c = tgt.planes@[p].cfg;
    let sx = side(c.xdec as int);
    let sy = side(c.ydec as int);
    forall|i: int, j: int| 0 <= i < sx && 0 <= j < sy && sx * kx + i < c.width && sy * ky + j < c.height ==>
        #[trigger] out.sample(sx * kx + i, sy * ky + j) == blended(
            tgt.planes@[p].sample(sx * kx + i, sy * ky + j),
            |n: int| predicted(tgt, nbs, subpel, rule, bit_depth, p, kx, ky)(n)(i, j),
            strength,
            nbs.len() as int,
            pow2(bit_depth as nat) - 1,
        )
}

/// The block `(kx, ky)` of plane `p` is filtered in `out`.
spec fn block_done<T: Pixel, R: Fn(u64, u64) -> bool>(
    out: &Frame<T>,
    tgt: &Frame<T>,
    nbs: Seq<&Frame<T>>,
    strength: int,
    subpel: bool,
    rule: &R,
    bit_depth: int,
    p: int,
    kx: int,
    ky: int,
) -> bool {
    plane_block_done(&out.planes@[p], tgt, nbs, strength, subpel, rule, bit_depth, p, kx, ky)
}

/// The place `(u, v)` of plane `p` lies in block `(kx, ky)` of the picture.
spec fn in_block(c: PlaneConfig, kx: int, ky: int, u: int, v: int) -> bool {
    let sx = side(c.xdec as int);
    let sy = side(c.ydec as int);
    &&& sx * kx <= u < sx * kx + sx
    &&& u < c.width
    &&& sy * ky <= v < sy * ky + sy
    &&& v < c.height
}

/// Compensates a block of one plane against every neighbour.
fn compensate<T: Pixel>(nbs: &[&Frame<T>], pli: usize, pbx: usize, pby: usize, fw: usize, fh: usize, mvs: &Vec<(i32, i32)>, bit_depth: usize) -> (r: Vec<Prediction>)
    requires
        nbs.len() == mvs.len(),
        forall|n: int| 0 <= n < nbs.len() ==> pli < (#[trigger] nbs@[n]).planes.len() && padded(&nbs@[n].planes@[pli as int], bit_depth as int),
        forall|n: int| 0 <= n < mvs.len() ==> iabs((#[trigger] mvs@[n]).0 as int) <= 0x800_0000 && iabs(mvs@[n].1 as int) <= 0x800_0000,
        tappable(fw as int, fh as int),
        pbx <= MAX_EXTENT,
        pby <= MAX_EXTENT,
    ensures
        r.len() == nbs.len(),
        forall|n: int, i: int, j: int| 0 <= n < r.len() && 0 <= i < fw && 0 <= j < fh ==> {
            &&& #[trigger] r@[n].sample(i, j) == compensated(
                &nbs@[n].planes@[pli as int], pbx as int, pby as int, fw as int, fh as int, mvs@[n].0 as int, mvs@[n].1 as int, bit_depth as int, i, j)
            &&& 0 <= r@[n].sample(i, j) <= pow2(bit_depth as nat) - 1
        },
{
    let mut preds: Vec<Prediction> = Vec::new();
    let mut n: usize = 0;
    while n < nbs.len()
        invariant
            n <= nbs.len() == mvs.len(),
            preds.len() == n,
            forall|n: int| 0 <= n < nbs.len() ==> pli < (#[trigger] nbs@[n]).planes.len() && padded(&nbs@[n].planes@[pli as int], bit_depth as int),
            forall|n: int| 0 <= n < mvs.len() ==> iabs((#[trigger] mvs@[n]).0 as int) <= 0x800_0000 && iabs(mvs@[n].1 as int) <= 0x800_0000,
            tappable(fw as int, fh as int),
            pbx <= MAX_EXTENT,
            pby <= MAX_EXTENT,
            forall|m: int, i: int, j: int| 0 <= m < preds.len() && 0 <= i < fw && 0 <= j < fh ==> {
                &&& #[trigger] preds@[m].sample(i, j) == compensated(
                    &nbs@[m].planes@[pli as int], pbx as int, pby as int, fw as int, fh as int, mvs@[m].0 as int, mvs@[m].1 as int, bit_depth as int, i, j)
                &&& 0 <= preds@[m].sample(i, j) <= pow2(bit_depth as nat) - 1
            },
        decreases nbs.len() - n,
    {
        let mut p: Prediction = Prediction { data: [0; 256] };
        let (row, col): (i32, i32) = mvs[n];
        assert(padded(&nbs@[n as int].planes@[pli as int], bit_depth as int));
        assert(iabs(mvs@[n as int].0 as int) <= 0x800_0000);
        mc_block(&mut p, &nbs[n].planes[pli], pbx, pby, fw, fh, row, col, bit_depth);
        preds.push(p);
        n = n + 1;
    }
    preds
}

/// The motion of a luma block against every neighbour.
fn motions<T: Pixel, R: Fn(u64, u64) -> bool>(tgt: &Plane<T>, nbs: &[&Frame<T>], b: FilterBlock, subpel: bool, rule: &R, bit_depth: usize) -> (r: Vec<(i32, i32)>)
    requires
        subpel ==> decisive(rule),
        tgt.wf(),
        b.wf(),
        subpel ==> tappable(b.bw as int, b.bh as int),
        forall|n: int| 0 <= n < nbs.len() ==> 0 < (#[trigger] nbs@[n]).planes.len() && padded(&nbs@[n].planes@[0], bit_depth as int),
    ensures
        r.len() == nbs.len(),
        forall|n: int| 0 <= n < r.len() ==> {
            &&& ((#[trigger] r@[n]).0 as int, r@[n].1 as int) == block_motion(tgt, &nbs@[n].planes@[0], b, subpel, rule, bit_depth as int)
            &&& iabs(r@[n].0 as int) <= 0x800_0000
            &&& iabs(r@[n].1 as int) <= 0x800_0000
        },
{
    let mut mvs: Vec<(i32, i32)> = Vec::new();
    let mut n: usize = 0;
    while n < nbs.len()
        invariant
            n <= nbs.len(),
            mvs.len() == n,
            subpel ==> decisive(rule),
            tgt.wf(),
            b.wf(),
            subpel ==> tappable(b.bw as int, b.bh as int),
            forall|n: int| 0 <= n < nbs.len() ==> 0 < (#[trigger] nbs@[n]).planes.len() && padded(&nbs@[n].planes@[0], bit_depth as int),
            forall|m: int| 0 <= m < mvs.len() ==> {
                &&& ((#[trigger] mvs@[m]).0 as int, mvs@[m].1 as int) == block_motion(tgt, &nbs@[m].planes@[0], b, subpel, rule, bit_depth as int)
                &&& iabs(mvs@[m].0 as int) <= 0x800_0000
                &&& iabs(mvs@[m].1 as int) <= 0x800_0000
            },
        decreases nbs.len() - n,
    {
        assert(padded(&nbs@[n as int].planes@[0], bit_depth as int));
        let mv: (i32, i32) = motion_of(tgt, &nbs[n].planes[0], b, subpel, rule, bit_depth);
        mvs.push(mv);
        n = n + 1;
    }
    mvs
}

/// Filters one block of one plane, given the motion of its luma block.
fn filter_block_plane<T: Pixel, R: Fn(u64, u64) -> bool>(
    out: &mut Plane<T>,
    tgt: &Frame<T>,
    nbs: &[&Frame<T>],
    mvs: &Vec<(i32, i32)>,
    pli: usize,
    bx: usize,
    by: usize,
    strength: u32,
    bit_depth: usize,
    Ghost(subpel): Ghost<bool>,
    rule: &R,
)
    requires
        target_ok(tgt, bit_depth as int),
        forall|n: int| 0 <= n < nbs.len() ==> neighbour_ok(#[trigger] nbs@[n], tgt, bit_depth as int),
        nbs.len() <= 65536,
        strength < 32,
        pli < tgt.planes.len(),
        bx % 16 == 0,
        by % 16 == 0,
        bx < tgt.planes@[0].cfg.width,
        by < tgt.planes@[0].cfg.height,
        mvs.len() == nbs.len(),
        forall|n: int| 0 <= n < mvs.len() ==> {
            &&& ((#[trigger] mvs@[n]).0 as int, mvs@[n].1 as int) == block_motion(
                &tgt.planes@[0],
                &nbs@[n].planes@[0],
                luma_block(tgt.planes@[0].cfg.width, tgt.planes@[0].cfg.height, bx as int, by as int),
                subpel,
                rule,
                bit_depth as int,
            )
            &&& iabs(mvs@[n].0 as int) <= 0x800_0000
            &&& iabs(mvs@[n].1 as int) <= 0x800_0000
        },
        old(out).wf(),
        old(out).cfg == tgt.planes@[pli as int].cfg,
    ensures
        final(out).wf(),
        final(out).cfg == tgt.planes@[pli as int].cfg,
        plane_block_done(final(out), tgt, nbs@, strength as int, subpel, rule, bit_depth as int, pli as int, bx as int / 16, by as int / 16),
        forall|u: int, v: int| tgt.planes@[pli as int].cfg.has(u, v) && !in_block(tgt.planes@[pli as int].cfg, bx as int / 16, by as int / 16, u, v) ==>
            #[trigger] final(out).sample(u, v) == old(out).sample(u, v),
{
    let cfg: PlaneConfig = tgt.planes[pli].cfg;
    let ghost kx = bx as int / 16;
    let ghost ky = by as int / 16;
    proof {
        assert(padded(&tgt.planes@[pli as int], bit_depth as int));
        assert(padded(&tgt.planes@[0], bit_depth as int));
        assert(covers_luma(tgt.planes@[pli as int].cfg, tgt.planes@[0].cfg));
    }
    let fw: usize = if cfg.xdec == 0 { 16 } else { 8 };
    let fh: usize = if cfg.ydec == 0 { 16 } else { 8 };
    let pbx: usize = if cfg.xdec == 0 { bx } else { bx / 2 };
    let pby: usize = if cfg.ydec == 0 { by } else { by / 2 };
    let pbw: usize = if cfg.width - pbx < fw { cfg.width - pbx } else { fw };
    let pbh: usize = if cfg.height - pby < fh { cfg.height - pby } else { fh };
    let ghost stack = predicted(tgt, nbs@, subpel, rule, bit_depth as int, pli as int, kx, ky);
    proof {
        assert forall|n: int| 0 <= n < nbs.len() implies pli < (#[trigger] nbs@[n]).planes.len() && padded(&nbs@[n].planes@[pli as int], bit_depth as int) by {
            assert(neighbour_ok(nbs@[n], tgt, bit_depth as int));
        }
    }
    let preds: Vec<Prediction> = compensate(nbs, pli, pbx, pby, fw, fh, mvs, bit_depth);
    proof {
        assert(fw == side(cfg.xdec as int) && fh == side(cfg.ydec as int));
        assert(pbx == side(cfg.xdec as int) * kx && pby == side(cfg.ydec as int) * ky);
        let b = luma_block(tgt.planes@[0].cfg.width, tgt.planes@[0].cfg.height, bx as int, by as int);
        assert forall|n: int, i: int, j: int| 0 <= n < preds.len() && 0 <= i < pbw && 0 <= j < pbh implies
            #[trigger] cell_holds(preds@[n], stack(n), i, j, pow2(bit_depth as nat) - 1) by {
            let mv = block_motion(&tgt.planes@[0], &nbs@[n].planes@[0], b, subpel, rule, bit_depth as int);
            assert((mvs@[n].0 as int, mvs@[n].1 as int) == mv);
            assert(i < fw && j < fh);
            assert(preds@[n].sample(i, j) == compensated(
                &nbs@[n].planes@[pli as int], pbx as int, pby as int, fw as int, fh as int, mvs@[n].0 as int, mvs@[n].1 as int, bit_depth as int, i, j));
            assert(mv.0 == mvs@[n].0 as int && mv.1 == mvs@[n].1 as int);
            assert(stack(n)(i, j) == compensated(&nbs@[n].planes@[pli as int], pbx as int, pby as int, fw as int, fh as int, mv.0, mv.1, bit_depth as int, i, j));
        }
        assert(stack_holds(preds@, stack, pbw as int, pbh as int, pow2(bit_depth as nat) - 1));
    }
    filter_plane_block(out, &tgt.planes[pli], &preds, pbx, pby, pbw, pbh, strength, bit_depth, Ghost(stack));
    proof {
        assert forall|i: int, j: int| 0 <= i < fw && 0 <= j < fh && pbx + i < cfg.width && pby + j < cfg.height implies
            #[trigger] out.sample(pbx + i, pby + j) == blended(
            tgt.planes@[pli as int].sample(pbx + i, pby + j),
            |n: int| predicted(tgt, nbs@, subpel, rule, bit_depth as int, pli as int, kx, ky)(n)(i, j),
            strength as int,
            nbs.len() as int,
            pow2(bit_depth as nat) - 1,
        ) by {
            assert((|n: int| predicted(tgt, nbs@, subpel, rule, bit_depth as int, pli as int, kx, ky)(n)(i, j)) =~= (|n: int| stack(n)(i, j)));
        }
    }
}

/// Filters one block of every plane.
fn filter_block<T: Pixel, R: Fn(u64, u64) -> bool>(out: &mut Frame<T>, tgt: &Frame<T>, nbs: &[&Frame<T>], bx: usize, by: usize, strength: u32, bit_depth: usize, subpel: bool, rule: &R)
    requires
        subpel ==> decisive(rule),
        target_ok(tgt, bit_depth as int),
        forall|n: int| 0 <= n < nbs.len() ==> neighbour_ok(#[trigger] nbs@[n], tgt, bit_depth as int),
        nbs.len() <= 65536,
        strength < 32,
        subpel ==> edges_tappable(tgt.planes@[0].cfg),
        bx % 16 == 0,
        by % 16 == 0,
        bx < tgt.planes@[0].cfg.width,
        by < tgt.planes@[0].cfg.height,
        old(out).planes.len() == tgt.planes.len(),
        forall|p: int| 0 <= p < tgt.planes.len() ==> (#[trigger] old(out).planes@[p]).wf() && old(out).planes@[p].cfg == tgt.planes@[p].cfg,
    ensures
        final(out).planes.len() == tgt.planes.len(),
        forall|p: int| 0 <= p < tgt.planes.len() ==> (#[trigger] final(out).planes@[p]).wf() && final(out).planes@[p].cfg == tgt.planes@[p].cfg,
        forall|p: int| 0 <= p < tgt.planes.len() ==> #[trigger] block_done(
            final(out), tgt, nbs@, strength as int, subpel, rule, bit_depth as int, p, bx as int / 16, by as int / 16),
        forall|p: int, u: int, v: int| 0 <= p < tgt.planes.len() && tgt.planes@[p].cfg.has(u, v) && !in_block(tgt.planes@[p].cfg, bx as int / 16, by as int / 16, u, v) ==>
            #[trigger] final(out).planes@[p].sample(u, v) == old(out).planes@[p].sample(u, v),
{
    let luma: &Plane<T> = &tgt.planes[0];
    assert(padded(&tgt.planes@[0], bit_depth as int));
    let bw: usize = if luma.cfg.width - bx < BLK { luma.cfg.width - bx } else { BLK };
    let bh: usize = if luma.cfg.height - by < BLK { luma.cfg.height - by } else { BLK };
    let b: FilterBlock = FilterBlock { bx, by, bw, bh };
    let ghost kx = bx as int / 16;
    let ghost ky = by as int / 16;
    proof {
        assert(b == luma_block(luma.cfg.width, luma.cfg.height, 16 * kx, 16 * ky));
        assert forall|n: int| 0 <= n < nbs.len() implies 0 < (#[trigger] nbs@[n]).planes.len() && padded(&nbs@[n].planes@[0], bit_depth as int) by {
            assert(neighbour_ok(nbs@[n], tgt, bit_depth as int));
        }
    }
    let mvs: Vec<(i32, i32)> = motions(luma, nbs, b, subpel, rule, bit_depth);
    let ghost orig = *out;
    let mut pli: usize = 0;
    while pli < tgt.planes.len()
        invariant
            pli <= tgt.planes.len(),
            target_ok(tgt, bit_depth as int),
            forall|n: int| 0 <= n < nbs.len() ==> neighbour_ok(#[trigger] nbs@[n], tgt, bit_depth as int),
            nbs.len() <= 65536,
            strength < 32,
            bx % 16 == 0,
            by % 16 == 0,
            kx == bx as int / 16,
            ky == by as int / 16,
            bx < tgt.planes@[0].cfg.width,
            by < tgt.planes@[0].cfg.height,
            bw == imin(16, tgt.planes@[0].cfg.width - bx),
            bh == imin(16, tgt.planes@[0].cfg.height - by),
            *luma == tgt.planes@[0],
            b == luma_block(luma.cfg.width, luma.cfg.height, 16 * kx, 16 * ky),
            mvs.len() == nbs.len(),
            forall|n: int| 0 <= n < mvs.len() ==> {
                &&& ((#[trigger] mvs@[n]).0 as int, mvs@[n].1 as int) == block_motion(luma, &nbs@[n].planes@[0], b, subpel, rule, bit_depth as int)
                &&& iabs(mvs@[n].0 as int) <= 0x800_0000
                &&& iabs(mvs@[n].1 as int) <= 0x800_0000
            },
            out.planes.len() == tgt.planes.len(),
            forall|p: int| 0 <= p < tgt.planes.len() ==> (#[trigger] out.planes@[p]).wf() && out.planes@[p].cfg == tgt.planes@[p].cfg,
            forall|p: int| 0 <= p < pli ==> #[trigger] block_done(out, tgt, nbs@, strength as int, subpel, rule, bit_depth as int, p, kx, ky),
            forall|p: int, u: int, v: int| 0 <= p < tgt.planes.len() && tgt.planes@[p].cfg.has(u, v) && (p >= pli || !in_block(tgt.planes@[p].cfg, kx, ky, u, v)) ==>
                #[trigger] out.planes@[p].sample(u, v) == orig.planes@[p].sample(u, v),
        decreases tgt.planes.len() - pli,
    {
        let ghost before = *out;
        filter_block_plane(&mut out.planes[pli], tgt, nbs, &mvs, pli, bx, by, strength, bit_depth, Ghost(subpel), rule);
        proof {
            assert(forall|p: int| 0 <= p < tgt.planes.len() && p != pli ==> out.planes@[p] == before.planes@[p]);
            assert forall|p: int| 0 <= p < pli + 1 implies #[trigger] block_done(out, tgt, nbs@, strength as int, subpel, rule, bit_depth as int, p, kx, ky) by {
                if p < pli {
                    assert(block_done(&before, tgt, nbs@, strength as int, subpel, rule, bit_depth as int, p, kx, ky));
                }
            }
        }
        pli = pli + 1;
    }
}

/// A copy of a plane.
fn copy_plane<T: Pixel>(p: &Plane<T>) -> (r: Plane<T>)
    ensures
        r.data@ == p.data@,
        r.cfg == p.cfg,
{
    let mut data: Vec<T> = Vec::new();
    let mut i: usize = 0;
    while i < p.data.len()
        invariant
            i <= p.data.len(),
            data@ == p.data@.subrange(0, i as int),
        decreases p.data.len() - i,
    {
        data.push(p.data[i]);
        assert(p.data@.subrange(0, i + 1) =~= p.data@.subrange(0, i as int).push(p.data@[i as int]));
        i = i + 1;
    }
    assert(p.data@.subrange(0, i as int) =~= p.data@);
    Plane { data, cfg: p.cfg }
}

/// A copy of a picture.
fn copy_frame<T: Pixel>(f: &Frame<T>) -> (r: Frame<T>)
    ensures
        r.planes.len() == f.planes.len(),
        forall|p: int| 0 <= p < f.planes.len() ==> (#[trigger] r.planes@[p]).data@ == f.planes@[p].data@ && r.planes@[p].cfg == f.planes@[p].cfg,
{
    let mut planes: Vec<Plane<T>> = Vec::new();
    let mut i: usize = 0;
    while i < f.planes.len()
        invariant
            i <= f.planes.len(),
            planes.len() == i,
            forall|p: int| 0 <= p < i ==> (#[trigger] planes@[p]).data@ == f.planes@[p].data@ && planes@[p].cfg == f.planes@[p].cfg,
        decreases f.planes.len() - i,
    {
        let p: Plane<T> = copy_plane(&f.planes[i]);
        planes.push(p);
        i = i + 1;
    }
    Frame { planes }
}

/// Temporally filters `tgt` against `nbs` into a new picture: every visible
/// sample is blended with its motion-compensated neighbours; the padding is the
/// target's. Without neighbours the picture is a copy, and nothing is asked of its
/// geometry.
pub fn filter_frame<T: Pixel, R: Fn(u64, u64) -> bool>(tgt: &Frame<T>, nbs: &[&Frame<T>], strength: u32, bit_depth: usize, subpel: bool, rule: &R) -> (r: Frame<T>)
    requires
        nbs.len() <= 65536,
        nbs.len() == 0 ==> in_depth(tgt, bit_depth as int),
        nbs.len() > 0 ==> target_ok(tgt, bit_depth as int),
        forall|n: int| 0 <= n < nbs.len() ==> neighbour_ok(#[trigger] nbs@[n], tgt, bit_depth as int),
        nbs.len() > 0 ==> strength < 32,
        nbs.len() > 0 && subpel ==> decisive(rule) && edges_tappable(tgt.planes@[0].cfg),
    ensures
        r.planes.len() == tgt.planes.len(),
        forall|p: int| 0 <= p < tgt.planes.len() ==> (#[trigger] r.planes@[p]).cfg == tgt.planes@[p].cfg && (tgt.planes@[p].wf() ==> r.planes@[p].wf()),
        nbs.len() == 0 ==> forall|p: int| 0 <= p < tgt.planes.len() ==> (#[trigger] r.planes@[p]).data@ == tgt.planes@[p].data@,
        forall|p: int, x: int, y: int| 0 <= p < tgt.planes.len() && 0 <= x < tgt.planes@[p].cfg.width && 0 <= y < tgt.planes@[p].cfg.height ==>
            #[trigger] r.planes@[p].sample(x, y) == filtered(tgt, nbs@, strength as int, subpel, rule, bit_depth as int, p, x, y),
        forall|p: int, x: int, y: int| 0 <= p < tgt.planes.len() && tgt.planes@[p].cfg.has(x, y)
            && !(0 <= x < tgt.planes@[p].cfg.width && 0 <= y < tgt.planes@[p].cfg.height) ==>
            #[trigger] r.planes@[p].sample(x, y) == tgt.planes@[p].sample(x, y),
{
    let mut out: Frame<T> = copy_frame(tgt);
    if nbs.len() == 0 {
        proof {
            assert forall|p: int, x: int, y: int| 0 <= p < tgt.planes.len() && 0 <= x < tgt.planes@[p].cfg.width && 0 <= y < tgt.planes@[p].cfg.height implies
                #[trigger] out.planes@[p].sample(x, y) == filtered(tgt, nbs@, strength as int, subpel, rule, bit_depth as int, p, x, y) by {
                law_static_scene_is_unchanged(tgt, nbs@, strength as int, subpel, rule, bit_depth as int, p, x, y);
            }
        }
        return out;
    }
    let w: usize = tgt.planes[0].cfg.width;
    let h: usize = tgt.planes[0].cfg.height;
    proof {
        assert(padded(&tgt.planes@[0], bit_depth as int));
        assert forall|p: int| 0 <= p < tgt.planes.len() implies (#[trigger] out.planes@[p]).wf() && out.planes@[p].cfg == tgt.planes@[p].cfg by {
            assert(padded(&tgt.planes@[p], bit_depth as int));
        }
    }
    let mut by: usize = 0;
    while by < h
        invariant
            target_ok(tgt, bit_depth as int),
            forall|n: int| 0 <= n < nbs.len() ==> neighbour_ok(#[trigger] nbs@[n], tgt, bit_depth as int),
            nbs.len() <= 65536,
            strength < 32,
            subpel ==> edges_tappable(tgt.planes@[0].cfg),
            subpel ==> decisive(rule),
            w == tgt.planes@[0].cfg.width,
            h == tgt.planes@[0].cfg.height,
            w <= MAX_EXTENT,
            h <= MAX_EXTENT,
            by <= h + 16,
            by % 16 == 0,
            out.planes.len() == tgt.planes.len(),
            forall|p: int| 0 <= p < tgt.planes.len() ==> (#[trigger] out.planes@[p]).wf() && out.planes@[p].cfg == tgt.planes@[p].cfg,
            forall|p: int, kx: int, ky: int| 0 <= p < tgt.planes.len() && 0 <= kx && 16 * kx < w && 0 <= ky < by as int / 16 ==>
                #[trigger] block_done(&out, tgt, nbs@, strength as int, subpel, rule, bit_depth as int, p, kx, ky),
            forall|p: int, u: int, v: int| 0 <= p < tgt.planes.len() && tgt.planes@[p].cfg.has(u, v)
                && !(0 <= u < tgt.planes@[p].cfg.width && 0 <= v < tgt.planes@[p].cfg.height) ==>
                #[trigger] out.planes@[p].sample(u, v) == tgt.planes@[p].sample(u, v),
        decreases h + 16 - by,
    {
        let mut bx: usize = 0;
        while bx < w
            invariant
                target_ok(tgt, bit_depth as int),
                forall|n: int| 0 <= n < nbs.len() ==> neighbour_ok(#[trigger] nbs@[n], tgt, bit_depth as int),
                nbs.len() <= 65536,
                strength < 32,
                subpel ==> edges_tappable(tgt.planes@[0].cfg),
                subpel ==> decisive(rule),
                w == tgt.planes@[0].cfg.width,
                h == tgt.planes@[0].cfg.height,
                w <= MAX_EXTENT,
                h <= MAX_EXTENT,
                by < h,
                by % 16 == 0,
                bx <= w + 16,
                bx % 16 == 0,
                out.planes.len() == tgt.planes.len(),
                forall|p: int| 0 <= p < tgt.planes.len() ==> (#[trigger] out.planes@[p]).wf() && out.planes@[p].cfg == tgt.planes@[p].cfg,
                forall|p: int, kx: int, ky: int| 0 <= p < tgt.planes.len() && 0 <= kx && 16 * kx < w && 0 <= ky && (ky < by as int / 16 || ky == by as int / 16 && kx < bx as int / 16) ==>
                    #[trigger] block_done(&out, tgt, nbs@, strength as int, subpel, rule, bit_depth as int, p, kx, ky),
                forall|p: int, u: int, v: int| 0 <= p < tgt.planes.len() && tgt.planes@[p].cfg.has(u, v)
                    && !(0 <= u < tgt.planes@[p].cfg.width && 0 <= v < tgt.planes@[p].cfg.height) ==>
                    #[trigger] out.planes@[p].sample(u, v) == tgt.planes@[p].sample(u, v),
            decreases w + 16 - bx,
        {
            let ghost before = out;
            filter_block(&mut out, tgt, nbs, bx, by, strength, bit_depth, subpel, rule);
            proof {
                assert forall|p: int, kx: int, ky: int| 0 <= p < tgt.planes.len() && 0 <= kx && 16 * kx < w && 0 <= ky
                    && (ky < by as int / 16 || ky == by as int / 16 && kx < bx as int / 16 + 1) implies
                    #[trigger] block_done(&out, tgt, nbs@, strength as int, subpel, rule, bit_depth as int, p, kx, ky) by {
                    if !(ky == by as int / 16 && kx == bx as int / 16) {
                        lemma_other_block(&out, &before, tgt, nbs@, strength as int, subpel, rule, bit_depth as int, p, kx, ky, bx as int / 16, by as int / 16);
                    }
                }
            }
            bx = bx + BLK;
        }
        by = by + BLK;
    }
    proof {
        assert forall|p: int, x: int, y: int| 0 <= p < tgt.planes.len() && 0 <= x < tgt.planes@[p].cfg.width && 0 <= y < tgt.planes@[p].cfg.height implies
            #[trigger] out.planes@[p].sample(x, y) == filtered(tgt, nbs@, strength as int, subpel, rule, bit_depth as int, p, x, y) by {
            let c = tgt.planes@[p].cfg;
            let sx = side(c.xdec as int);
            let sy = side(c.ydec as int);
            assert(padded(&tgt.planes@[p], bit_depth as int));
            assert(covers_luma(c, tgt.planes@[0].cfg));
            let kx = x / sx;
            let ky = y / sy;
            assert(16 * kx < w && ky < by as int / 16);
            assert(block_done(&out, tgt, nbs@, strength as int, subpel, rule, bit_depth as int, p, kx, ky));
            assert(x == sx * kx + x % sx && y == sy * ky + y % sy);
            assert(out.planes@[p].sample(sx * kx + x % sx, sy * ky + y % sy) == filtered(tgt, nbs@, strength as int, subpel, rule, bit_depth as int, p, x, y));
        }
    }
    out
}

/// A block that lies elsewhere stays filtered.
proof fn lemma_other_block<T: Pixel, R: Fn(u64, u64) -> bool>(
    out: &Frame<T>,
    before: &Frame<T>,
    tgt: &Frame<T>,
    nbs: Seq<&Frame<T>>,
    strength: int,
    subpel: bool,
    rule: &R,
    bit_depth: int,
    p: int,
    kx: int,
    ky: int,
    bx: int,
    by: int,
)
    requires
        0 <= p < tgt.planes.len(),
        tgt.planes@[p].wf(),
        kx >= 0,
        ky >= 0,
        kx != bx || ky != by,
        block_done(before, tgt, nbs, strength, subpel, rule, bit_depth, p, kx, ky),
        forall|u: int, v: int| tgt.planes@[p].cfg.has(u, v) && !in_block(tgt.planes@[p].cfg, bx, by, u, v) ==>
            #[trigger] out.planes@[p].sample(u, v) == before.planes@[p].sample(u, v),
    ensures
        block_done(out, tgt, nbs, strength, subpel, rule, bit_depth, p, kx, ky),
{
    let c = tgt.planes@[p].cfg;
    let sx = side(c.xdec as int);
    let sy = side(c.ydec as int);
    assert forall|i: int, j: int| 0 <= i < sx && 0 <= j < sy && sx * kx + i < c.width && sy * ky + j < c.height implies
        #[trigger] out.planes@[p].sample(sx * kx + i, sy * ky + j) == before.planes@[p].sample(sx * kx + i, sy * ky + j) by {
        assert(c.has(sx * kx + i, sy * ky + j));
        assert(!in_block(c, bx, by, sx * kx + i, sy * ky + j));
    }
}

/// What decides whether a frame's source is filtered.
#[derive(Clone, Copy, Debug, PartialEq, Eq, Structural)]
pub struct AltrefGate {
    /// The filter is switched on.
    pub enabled: bool,
    pub show_frame: bool,
    pub intra_only: bool,
    pub pyramid_level: u64,
    /// The deepest level of the pyramid that is filtered.
    pub max_level: u64,
    pub input_frameno: u64,
}

impl AltrefGate {
    /// Only hidden inter frames near the top of the pyramid are filtered.
    pub open spec fn is_open(self) -> bool {
        self.enabled && !self.show_frame && !self.intra_only && self.pyramid_level <= self.max_level
    }

    /// Whether the frame's source is filtered.
    pub fn allows(&self) -> (r: bool)
        ensures
            r == self.is_open(),
    {
        self.enabled && !self.show_frame && !self.intra_only && self.pyramid_level <= self.max_level
    }
}

/// The frames that can be looked up, by input frame number.
pub type FrameQueue<T> = BTreeMap<u64, Option<Arc<Frame<T>>>>;

/// The frame with number `n`, where the queue holds one.
pub open spec fn queued<'a, T>(q: &'a FrameQueue<T>, n: int) -> Seq<&'a Frame<T>> {
    if 0 <= n && q@.dom().contains(n as u64) {
        match q@[n as u64] {
            Some(f) => seq![&*f],
            None => seq![],
        }
    } else {
        seq![]
    }
}

/// The neighbours of frame `cur` in the order they are blended: the nearer pair
/// first, and of each pair the earlier frame.
pub open spec fn neighbours<'a, T>(q: &'a FrameQueue<T>, cur: int) -> Seq<&'a Frame<T>> {
    queued(q, cur - 1) + queued(q, cur + 1) + queued(q, cur - 2) + queued(q, cur + 2)
}

/// Adds the frame with number `n` to `nbs`, where the queue holds one.
fn push_queued<'a, T>(nbs: &mut Vec<&'a Frame<T>>, frame_q: &'a FrameQueue<T>, n: i64)
    ensures
        final(nbs)@ == old(nbs)@ + queued(frame_q, n as int),
{
    broadcast use vstd::std_specs::btree::group_btree_axioms;

    let ghost before = nbs@;
    if n >= 0 {
        if let Some(slot) = frame_q.get(&(n as u64)) {
            if let Some(f) = slot {
                nbs.push(&**f);
            }
        }
    }
    assert(nbs@ =~= before + queued(frame_q, n as int));
}

/// The neighbours of frame `cur` that the queue holds, in the order they are blended.
pub fn queued_neighbours<'a, T>(frame_q: &'a FrameQueue<T>, cur: u64) -> (r: Vec<&'a Frame<T>>)
    requires
        cur <= i64::MAX - 2,
    ensures
        r@ == neighbours(frame_q, cur as int),
{
    let at: i64 = cur as i64;
    let mut nbs: Vec<&Frame<T>> = Vec::new();
    push_queued(&mut nbs, frame_q, at - 1);
    push_queued(&mut nbs, frame_q, at + 1);
    push_queued(&mut nbs, frame_q, at - 2);
    push_queued(&mut nbs, frame_q, at + 2);
    assert(nbs@ =~= neighbours(frame_q, cur as int));
    nbs
}

/// Filters a frame's source if filtering is allowed and the queue holds a neighbour
/// within two frames of it; otherwise returns the source as it is.
pub fn maybe_filter_altref<T: Pixel, R: Fn(u64, u64) -> bool>(
    gate: AltrefGate,
    frame: Arc<Frame<T>>,
    frame_q: &FrameQueue<T>,
    strength: u32,
    bit_depth: usize,
    subpel: bool,
    rule: &R,
) -> (r: Arc<Frame<T>>)
    requires
        gate.is_open() ==> gate.input_frameno <= i64::MAX - 2,
        gate.is_open() && neighbours(frame_q, gate.input_frameno as int).len() > 0 ==> {
            let nbs = neighbours(frame_q, gate.input_frameno as int);
            &&& target_ok(&*frame, bit_depth as int)
            &&& forall|n: int| 0 <= n < nbs.len() ==> neighbour_ok(#[trigger] nbs[n], &*frame, bit_depth as int)
            &&& strength < 32
            &&& subpel ==> decisive(rule) && edges_tappable(frame.planes@[0].cfg)
        },
    ensures
        !gate.is_open() || neighbours(frame_q, gate.input_frameno as int).len() == 0 ==> r == frame,
        gate.is_open() && neighbours(frame_q, gate.input_frameno as int).len() > 0 ==> {
            let nbs = neighbours(frame_q, gate.input_frameno as int);
            &&& r.planes.len() == frame.planes.len()
            &&& forall|p: int| 0 <= p < frame.planes.len() ==> (#[trigger] r.planes@[p]).cfg == frame.planes@[p].cfg
            &&& forall|p: int, x: int, y: int| 0 <= p < frame.planes.len() && 0 <= x < frame.planes@[p].cfg.width && 0 <= y < frame.planes@[p].cfg.height ==>
                #[trigger] r.planes@[p].sample(x, y) == filtered(&*frame, nbs, strength as int, subpel, rule, bit_depth as int, p, x, y)
            &&& forall|p: int, x: int, y: int| 0 <= p < frame.planes.len() && frame.planes@[p].cfg.has(x, y)
                && !(0 <= x < frame.planes@[p].cfg.width && 0 <= y < frame.planes@[p].cfg.height) ==>
                #[trigger] r.planes@[p].sample(x, y) == frame.planes@[p].sample(x, y)
        },
{
    if !gate.allows() {
        return frame;
    }
    let nbs: Vec<&Frame<T>> = queued_neighbours(frame_q, gate.input_frameno);
    if nbs.len() == 0 {
        return frame;
    }
    let out: Frame<T> = filter_frame(&*frame, nbs.as_slice(), strength, bit_depth, subpel, rule);
    Arc::new(out)
}

/// Sums of magnitudes are never negative.
proof fn lemma_sad_not_negative<T: Pixel>(tgt: &Plane<T>, b: FilterBlock, pred: Grid)
    ensures
        sad_of(tgt, b, pred) >= 0,
{
    lemma_area_not_negative(block_error(tgt, b, pred), b.bw as int, b.bh as int);
}

proof fn lemma_area_not_negative(f: Grid, x1: int, y1: int)
    requires
        forall|x: int, y: int| #[trigger] f(x, y) >= 0,
    ensures
        area_sum(f, 0, x1, 0, y1) >= 0,
    decreases y1,
{
    if y1 > 0 {
        lemma_area_not_negative(f, x1, y1 - 1);
        lemma_row_not_negative(f, x1, y1 - 1);
    }
}

proof fn lemma_row_not_negative(f: Grid, x1: int, y: int)
    requires
        forall|x: int, y: int| #[trigger] f(x, y) >= 0,
    ensures
        row_sum(f, 0, x1, y) >= 0,
    decreases x1,
{
    if x1 > 0 {
        lemma_row_not_negative(f, x1 - 1, y);
    }
}

proof fn lemma_area_zero(f: Grid, x1: int, y1: int)
    requires
        forall|x: int, y: int| 0 <= x < x1 && 0 <= y < y1 ==> #[trigger] f(x, y) == 0,
    ensures
        area_sum(f, 0, x1, 0, y1) == 0,
    decreases y1,
{
    if y1 > 0 {
        lemma_area_zero(f, x1, y1 - 1);
        lemma_row_zero(f, x1, y1 - 1);
    }
}

proof fn lemma_row_zero(f: Grid, x1: int, y: int)
    requires
        forall|x: int| 0 <= x < x1 ==> #[trigger] f(x, y) == 0,
    ensures
        row_sum(f, 0, x1, y) == 0,
    decreases x1,
{
    if x1 > 0 {
        lemma_row_zero(f, x1 - 1, y);
    }
}

/// A block that matches exactly where it is stays where it is.
pub proof fn law_static_block_stays(cost: Grid)
    requires
        forall|dx: int, dy: int| #[trigger] cost(dx, dy) >= 0,
        cost(0, 0) == 0,
    ensures
        best_match(cost) == (0int, 0int),
{
    assert forall|ex: int, ey: int| #[trigger] in_window(ex, ey) implies precedes(cost, 0, 0, ex, ey) by {
        assert(cost(ex, ey) >= 0);
    }
    lemma_best_match_unique(cost, 0, 0);
}

/// The blend lies between the smallest and the largest of the samples it is made
/// of: the filter smooths, and cannot leave their range.
pub proof fn law_blend_stays_between(c: int, v: spec_fn(int) -> int, strength: int, n: int, maxval: int, lo: int, hi: int)
    requires
        0 <= n,
        0 <= lo <= c <= hi <= maxval,
        forall|k: int| 0 <= k < n ==> lo <= #[trigger] v(k) <= hi,
    ensures
        lo <= blended(c, v, strength, n, maxval) <= hi,
{
    reveal(blended);
    lemma_sums_between(c, v, strength, n, lo, hi);
    let w = total_weight(c, v, strength, n);
    let s = weighted_sum(c, v, strength, n);
    assert(lo <= (s + w / 2) / w <= hi) by (nonlinear_arith)
        requires w >= 32, lo * w <= s <= hi * w,
    ;
}

proof fn lemma_weight_range(diff: int, strength: int)
    ensures
        0 <= weight_of(diff, strength) <= 16,
{
    lemma_pow2_pos(strength as nat);
    let p = pow2(strength as nat) as int;
    assert((diff * diff * 3) / p >= 0) by (nonlinear_arith)
        requires p > 0,
    ;
}

proof fn lemma_sums_between(c: int, v: spec_fn(int) -> int, strength: int, n: int, lo: int, hi: int)
    requires
        0 <= n,
        0 <= lo <= c <= hi,
        forall|k: int| 0 <= k < n ==> lo <= #[trigger] v(k) <= hi,
    ensures
        total_weight(c, v, strength, n) >= 32,
        lo * total_weight(c, v, strength, n) <= weighted_sum(c, v, strength, n) <= hi * total_weight(c, v, strength, n),
    decreases n,
{
    if n > 0 {
        lemma_sums_between(c, v, strength, n - 1, lo, hi);
        let w = weight_of(c - v(n - 1), strength);
        lemma_weight_range(c - v(n - 1), strength);
        let t = total_weight(c, v, strength, n - 1);
        assert(lo * w <= v(n - 1) * w <= hi * w) by (nonlinear_arith)
            requires lo <= v(n - 1) <= hi, w >= 0,
        ;
        assert(lo * (t + w) == lo * t + lo * w && hi * (t + w) == hi * t + hi * w) by (nonlinear_arith);
    }
}

/// A scene that does not change is not changed: filtered against copies of
/// itself, or against nothing, every sample of a picture stays as it is.
pub proof fn law_static_scene_is_unchanged<T: Pixel, R: Fn(u64, u64) -> bool>(
    tgt: &Frame<T>,
    nbs: Seq<&Frame<T>>,
    strength: int,
    subpel: bool,
    rule: &R,
    bit_depth: int,
    p: int,
    x: int,
    y: int,
)
    requires
        nbs.len() == 0 ==> in_depth(tgt, bit_depth),
        nbs.len() > 0 ==> target_ok(tgt, bit_depth),
        forall|n: int| 0 <= n < nbs.len() ==> #[trigger] nbs[n] == tgt,
        0 <= p < tgt.planes.len(),
        0 <= x < tgt.planes@[p].cfg.width,
        0 <= y < tgt.planes@[p].cfg.height,
    ensures
        filtered(tgt, nbs, strength, subpel, rule, bit_depth, p, x, y) == tgt.planes@[p].sample(x, y),
{
    let plane = tgt.planes@[p];
    let luma = tgt.planes@[0];
    let c = plane.cfg;
    if nbs.len() == 0 {
        let value = plane.sample(x, y);
        let stack = predicted(tgt, nbs, subpel, rule, bit_depth, p, x / side(c.xdec as int), y / side(c.ydec as int));
        let v = |n: int| stack(n)(x % side(c.xdec as int), y % side(c.ydec as int));
        assert(plane.visible_at_most(pow2(bit_depth as nat) - 1));
        law_blend_stays_between(value, v, strength, 0, pow2(bit_depth as nat) - 1, value, value);
    } else {
        assert(padded(&tgt.planes@[p], bit_depth) && padded(&tgt.planes@[0], bit_depth));
        assert(covers_luma(c, luma.cfg));
        let sx = side(c.xdec as int);
        let sy = side(c.ydec as int);
        let kx = x / sx;
        let ky = y / sy;
        let b = luma_block(luma.cfg.width, luma.cfg.height, 16 * kx, 16 * ky);
        assert(16 * kx < luma.cfg.width && 16 * ky < luma.cfg.height);
        lemma_static_motion(&luma, b, subpel, rule, bit_depth);
        let stack = predicted(tgt, nbs, subpel, rule, bit_depth, p, kx, ky);
        let value = plane.sample(x, y);
        let v = |n: int| stack(n)(x % sx, y % sy);
        assert forall|n: int| 0 <= n < nbs.len() implies value <= #[trigger] v(n) <= value by {
            assert(nbs[n] == tgt);
            lemma_unmoved(&plane, sx * kx, sy * ky, sx, sy, bit_depth, x % sx, y % sy);
            assert(sx * kx + x % sx == x && sy * ky + y % sy == y);
        }
        assert(0 <= c.index(x, y) < plane.data.len()) by {
            crate::plane::lemma_index_in_data(c, x, y);
        }
        assert(plane.samples_at_most(pow2(bit_depth as nat) - 1));
        law_blend_stays_between(value, v, strength, nbs.len() as int, pow2(bit_depth as nat) - 1, value, value);
    }
}

/// Without motion, compensation copies.
proof fn lemma_unmoved<T: Pixel>(p: &Plane<T>, bx: int, by: int, w: int, h: int, bit_depth: int, i: int, j: int)
    requires
        padded(p, bit_depth),
        0 <= bx <= p.cfg.width,
        0 <= by <= p.cfg.height,
    ensures
        compensated(p, bx, by, w, h, 0, 0, bit_depth, i, j) == p.sample(bx + i, by + j),
{
    reveal(compensated);
}

/// Against itself a block does not move.
proof fn lemma_static_motion<T: Pixel, R: Fn(u64, u64) -> bool>(luma: &Plane<T>, b: FilterBlock, subpel: bool, rule: &R, bit_depth: int)
    requires
        padded(luma, bit_depth),
        b.bx + b.bw <= luma.cfg.width,
        b.by + b.bh <= luma.cfg.height,
    ensures
        block_motion(luma, luma, b, subpel, rule, bit_depth) == (0int, 0int),
{
    reveal(block_motion);
    let whole = whole_cost(luma, luma, b);
    assert forall|dx: int, dy: int| #[trigger] whole(dx, dy) >= 0 by {
        lemma_sad_not_negative(luma, b, shifted(luma, b, dx, dy));
    }
    lemma_area_zero(block_error(luma, b, shifted(luma, b, 0, 0)), b.bw as int, b.bh as int);
    law_static_block_stays(whole);
    let cost = moved_cost(luma, luma, b, bit_depth);
    assert forall|r: int, c: int| #[trigger] cost(r, c) >= 0 by {
        lemma_sad_not_negative(luma, b, moved(luma, b, r, c, bit_depth));
    }
    let still = moved(luma, b, 0, 0, bit_depth);
    assert forall|x: int, y: int| 0 <= x < b.bw && 0 <= y < b.bh implies #[trigger] block_error(luma, b, still)(x, y) == 0 by {
        lemma_unmoved(luma, b.bx as int, b.by as int, b.bw as int, b.bh as int, bit_depth, x, y);
    }
    lemma_area_zero(block_error(luma, b, still), b.bw as int, b.bh as int);
    law_refined_is_a_local_minimum(cost, 0, 0);
}

/// A neighbour whose sample is too far from the target's has no weight.
pub proof fn law_far_neighbours_have_no_weight(diff: int, strength: int)
    requires
        0 <= strength,
        diff * diff * 3 >= 16 * pow2(strength as nat),
    ensures
        weight_of(diff, strength) == 0,
{
    let d = pow2(strength as nat) as int;
    lemma_pow2_pos(strength as nat);
    assert((diff * diff * 3) / d >= 16) by (nonlinear_arith)
        requires diff * diff * 3 >= 16 * d, d > 0;
}

/// The weight is sixteen at most, and sixteen where the samples agree. It ignores
/// the sign of the difference, falls as the difference grows and rises with the
/// strength.
pub proof fn law_weight_falls_with_the_difference(diff: int, diff2: int, strength: int, strength2: int)
    requires
        iabs(diff) <= iabs(diff2),
        0 <= strength <= strength2,
    ensures
        0 <= weight_of(diff, strength) <= 16,
        weight_of(0, strength) == 16,
        weight_of(-diff, strength) == weight_of(diff, strength),
        weight_of(diff, strength) >= weight_of(diff2, strength),
        weight_of(diff, strength) <= weight_of(diff, strength2),
{
    let p = pow2(strength as nat) as int;
    let p2 = pow2(strength2 as nat) as int;
    lemma_pow2_pos(strength as nat);
    if strength < strength2 {
        lemma_pow2_strictly_increases(strength as nat, strength2 as nat);
    }
    lemma_weight_range(diff, strength);
    assert(0int / p == 0) by (nonlinear_arith) requires p > 0;
    assert((-diff) * (-diff) == diff * diff) by (nonlinear_arith);
    assert(0 <= diff * diff <= diff2 * diff2) by (nonlinear_arith)
        requires iabs(diff) <= iabs(diff2),
    ;
    lemma_div_is_ordered(diff * diff * 3, diff2 * diff2 * 3, p);
    lemma_div_is_ordered_by_denominator(diff * diff * 3, p, p2);
}

/// A displacement is split without loss. An eighth of a luma sample is two sixteenths of a
/// sample of a plane at full resolution, and one of a plane at half of it; whole samples
/// and the rest make up exactly that, and the rest is less than a sample.
pub proof fn law_displacements_split(mv: int, k: int)
    ensures
        16 * whole(mv, 0) + sixteenths(mv, 0) == 2 * mv,
        16 * whole(mv, 1) + sixteenths(mv, 1) == mv,
        0 <= sixteenths(mv, 0) < 16,
        0 <= sixteenths(mv, 1) < 16,
        whole(8 * k, 0) == k && sixteenths(8 * k, 0) == 0,
        whole(16 * k, 1) == k && sixteenths(16 * k, 1) == 0,
        whole(mv + 16 * k, 0) == whole(mv, 0) + 2 * k,
        whole(mv + 16 * k, 1) == whole(mv, 1) + k,
{
}

/// A displaced block starts so many whole samples away from where it was, unless it would
/// leave the padding by more than the margin of three samples that the filter needs.
pub proof fn law_displaced_blocks_stay_near(pos: int, mv: int, dec: int, pad: int, extent: int)
    requires
        -pad <= extent,
    ensures
        -pad + 3 <= displaced(pos, mv, dec, pad, extent) <= extent + 3,
        -pad + 3 <= pos + whole(mv, dec) <= extent + 3 ==> displaced(pos, mv, dec, pad, extent) == pos + whole(mv, dec),
        pos + whole(mv, dec) < -pad + 3 ==> displaced(pos, mv, dec, pad, extent) == -pad + 3,
        pos + whole(mv, dec) > extent + 3 ==> displaced(pos, mv, dec, pad, extent) == extent + 3,
{
}

/// A displacement by a luma distance of `2 * a` columns and `2 * b` rows moves a block by
/// as many samples of a plane at full resolution, and by half as many of one at half of
/// it; the samples are copied.
pub proof fn law_whole_displacements_copy<T: Pixel>(src: &Plane<T>, bx: int, by: int, w: int, h: int, a: int, b: int, bit_depth: int, i: int, j: int)
    requires
        src.cfg.xdec <= 1,
        src.cfg.ydec <= 1,
        3 - src.cfg.xpad <= bx + moved_by(a, src.cfg.xdec as int) <= src.cfg.width + 3,
        3 - src.cfg.ypad <= by + moved_by(b, src.cfg.ydec as int) <= src.cfg.height + 3,
    ensures
        compensated(src, bx, by, w, h, 16 * b, 16 * a, bit_depth, i, j) == src.sample(
            bx + moved_by(a, src.cfg.xdec as int) + i,
            by + moved_by(b, src.cfg.ydec as int) + j,
        ),
{
    reveal(compensated);
    law_displacements_split(16 * a, 2 * a);
    law_displacements_split(16 * a, a);
    law_displacements_split(16 * b, 2 * b);
    law_displacements_split(16 * b, b);
}

/// The samples that a distance of `2 * d` luma samples is on a plane.
pub open spec fn moved_by(d: int, dec: int) -> int {
    if dec == 0 { 2 * d } else { d }
}

/// `nb` shows what `tgt` shows, `2 * a` luma columns further right and `2 * b` luma rows
/// further down, on every plane.
pub open spec fn shows_moved<T: Pixel>(nb: &Frame<T>, tgt: &Frame<T>, a: int, b: int) -> bool {
    &&& nb.planes.len() == tgt.planes.len()
    &&& forall|p: int| 0 <= p < tgt.planes.len() ==> (#[trigger] nb.planes@[p]).cfg == tgt.planes@[p].cfg
    &&& forall|p: int, u: int, v: int|
        0 <= p < tgt.planes.len() && 0 <= u < tgt.planes@[p].cfg.width && 0 <= v < tgt.planes@[p].cfg.height ==> nb.planes@[p].sample(
            u + moved_by(a, tgt.planes@[p].cfg.xdec as int),
            v + moved_by(b, tgt.planes@[p].cfg.ydec as int),
        ) == #[trigger] tgt.planes@[p].sample(u, v)
}

/// A scene that moves as a whole is not changed: where the luma block that a place belongs
/// to is found again in every neighbour, `2 * a` columns and `2 * b` rows away and nowhere
/// else within the search, the place keeps its sample on every plane.
pub proof fn law_moving_scene_is_unchanged<T: Pixel, R: Fn(u64, u64) -> bool>(
    tgt: &Frame<T>,
    nbs: Seq<&Frame<T>>,
    strength: int,
    subpel: bool,
    rule: &R,
    bit_depth: int,
    p: int,
    x: int,
    y: int,
    a: int,
    b: int,
)
    requires
        target_ok(tgt, bit_depth),
        -2 <= a <= 2,
        -2 <= b <= 2,
        0 <= p < tgt.planes.len(),
        0 <= x < tgt.planes@[p].cfg.width,
        0 <= y < tgt.planes@[p].cfg.height,
        forall|n: int| 0 <= n < nbs.len() ==> neighbour_ok(#[trigger] nbs[n], tgt, bit_depth),
        forall|n: int| 0 <= n < nbs.len() ==> shows_moved(#[trigger] nbs[n], tgt, a, b),
        ({
            let luma = tgt.planes@[0];
            let c = tgt.planes@[p].cfg;
            let l = luma_block(luma.cfg.width, luma.cfg.height, 16 * (x / side(c.xdec as int)), 16 * (y / side(c.ydec as int)));
            &&& 0 <= l.bx + 2 * a && l.bx + l.bw + 2 * a <= luma.cfg.width
            &&& 0 <= l.by + 2 * b && l.by + l.bh + 2 * b <= luma.cfg.height
            &&& forall|n: int, ex: int, ey: int|
                0 <= n < nbs.len() && in_window(ex, ey) && (ex != 2 * a || ey != 2 * b) ==> #[trigger] whole_cost(&luma, &nbs[n].planes@[0], l)(ex, ey) > 0
        }),
    ensures
        filtered(tgt, nbs, strength, subpel, rule, bit_depth, p, x, y) == tgt.planes@[p].sample(x, y),
{
    let plane = tgt.planes@[p];
    let luma = tgt.planes@[0];
    let c = plane.cfg;
    assert(padded(&tgt.planes@[p], bit_depth) && padded(&tgt.planes@[0], bit_depth));
    assert(covers_luma(c, luma.cfg));
    let sx = side(c.xdec as int);
    let sy = side(c.ydec as int);
    let kx = x / sx;
    let ky = y / sy;
    let l = luma_block(luma.cfg.width, luma.cfg.height, 16 * kx, 16 * ky);
    assert(16 * kx < luma.cfg.width && 16 * ky < luma.cfg.height);
    let stack = predicted(tgt, nbs, subpel, rule, bit_depth, p, kx, ky);
    let value = plane.sample(x, y);
    let v = |n: int| stack(n)(x % sx, y % sy);
    assert(sx * kx + x % sx == x && sy * ky + y % sy == y);
    assert forall|n: int| 0 <= n < nbs.len() implies value <= #[trigger] v(n) <= value by {
        let nb = nbs[n];
        assert(neighbour_ok(nb, tgt, bit_depth) && shows_moved(nb, tgt, a, b));
        assert(nb.planes@[p].cfg == c && nb.planes@[0].cfg == luma.cfg);
        assert(padded(&nb.planes@[0], bit_depth) && padded(&nb.planes@[p], bit_depth));
        assert forall|ex: int, ey: int| in_window(ex, ey) && (ex != 2 * a || ey != 2 * b) implies #[trigger] whole_cost(
            &luma,
            &nb.planes@[0],
            l,
        )(ex, ey) > 0 by {
            assert(whole_cost(&luma, &nbs[n].planes@[0], l)(ex, ey) > 0);
        }
        assert forall|u: int, w: int| 0 <= u < luma.cfg.width && 0 <= w < luma.cfg.height implies nb.planes@[0].sample(u + 2 * a, w + 2 * b)
            == #[trigger] luma.sample(u, w) by {
            assert(tgt.planes@[0].sample(u, w) == luma.sample(u, w));
        }
        lemma_moving_motion(&luma, &nb.planes@[0], l, subpel, rule, bit_depth, a, b);
        law_whole_displacements_copy(&nb.planes@[p], sx * kx, sy * ky, sx, sy, a, b, bit_depth, x % sx, y % sy);
        assert(tgt.planes@[p].sample(x, y) == value);
    }
    assert(0 <= c.index(x, y) < plane.data.len()) by {
        crate::plane::lemma_index_in_data(c, x, y);
    }
    assert(plane.samples_at_most(pow2(bit_depth as nat) - 1));
    law_blend_stays_between(value, v, strength, nbs.len() as int, pow2(bit_depth as nat) - 1, value, value);
}

/// A block that is found again at one place only moves there.
proof fn lemma_moving_motion<T: Pixel, R: Fn(u64, u64) -> bool>(luma: &Plane<T>, nb: &Plane<T>, l: FilterBlock, subpel: bool, rule: &R, bit_depth: int, a: int, b: int)
    requires
        padded(nb, bit_depth),
        nb.cfg == luma.cfg,
        luma.cfg.xdec == 0,
        luma.cfg.ydec == 0,
        -2 <= a <= 2,
        -2 <= b <= 2,
        l.bx + l.bw <= luma.cfg.width,
        l.by + l.bh <= luma.cfg.height,
        0 <= l.bx + 2 * a,
        l.bx + l.bw + 2 * a <= luma.cfg.width,
        0 <= l.by + 2 * b,
        l.by + l.bh + 2 * b <= luma.cfg.height,
        forall|u: int, v: int| 0 <= u < luma.cfg.width && 0 <= v < luma.cfg.height ==> nb.sample(u + 2 * a, v + 2 * b) == #[trigger] luma.sample(u, v),
        forall|ex: int, ey: int| in_window(ex, ey) && (ex != 2 * a || ey != 2 * b) ==> #[trigger] whole_cost(luma, nb, l)(ex, ey) > 0,
    ensures
        block_motion(luma, nb, l, subpel, rule, bit_depth) == (16 * b, 16 * a),
{
    reveal(block_motion);
    let cost = whole_cost(luma, nb, l);
    let there = shifted(nb, l, 2 * a, 2 * b);
    assert forall|x: int, y: int| 0 <= x < l.bw && 0 <= y < l.bh implies #[trigger] block_error(luma, l, there)(x, y) == 0 by {
        assert(luma.clamped(l.bx + x, l.by + y) == luma.sample(l.bx + x, l.by + y));
        assert(nb.clamped(l.bx + x + 2 * a, l.by + y + 2 * b) == nb.sample(l.bx + x + 2 * a, l.by + y + 2 * b));
    }
    lemma_area_zero(block_error(luma, l, there), l.bw as int, l.bh as int);
    assert(cost(2 * a, 2 * b) == 0);
    assert forall|ex: int, ey: int| #[trigger] in_window(ex, ey) implies precedes(cost, 2 * a, 2 * b, ex, ey) by {
        if ex != 2 * a || ey != 2 * b {
            assert(cost(ex, ey) > 0);
        }
    }
    lemma_best_match_unique(cost, 2 * a, 2 * b);
    let fine = moved_cost(luma, nb, l, bit_depth);
    assert forall|r: int, c: int| #[trigger] fine(r, c) >= 0 by {
        lemma_sad_not_negative(luma, l, moved(nb, l, r, c, bit_depth));
    }
    let still = moved(nb, l, 16 * b, 16 * a, bit_depth);
    assert forall|x: int, y: int| 0 <= x < l.bw && 0 <= y < l.bh implies #[trigger] block_error(luma, l, still)(x, y) == 0 by {
        law_whole_displacements_copy(nb, l.bx as int, l.by as int, l.bw as int, l.bh as int, a, b, bit_depth, x, y);
        assert(luma.clamped(l.bx + x, l.by + y) == luma.sample(l.bx + x, l.by + y));
    }
    lemma_area_zero(block_error(luma, l, still), l.bw as int, l.bh as int);
    law_refined_is_a_local_minimum(fine, 16 * b, 16 * a);
}

/// The weight of a neighbour's sample drops by one each time that three times the squared
/// difference reaches another multiple of two to the strength.
pub proof fn law_weights_drop_in_steps(diff: int, strength: int, k: int)
    requires
        0 <= strength,
        0 < k <= 16,
    ensures
        weight_of(diff, strength) <= 16 - k <==> 3 * diff * diff >= k * pow2(strength as nat),
{
    let d = pow2(strength as nat) as int;
    lemma_pow2_pos(strength as nat);
    let v = diff * diff * 3;
    let q = v / d;
    assert(3 * diff * diff == v) by (nonlinear_arith)
        requires v == diff * diff * 3;
    vstd::arithmetic::div_mod::lemma_fundamental_div_mod(v, d);
    vstd::arithmetic::div_mod::lemma_mod_bound(v, d);
    assert(q >= k <==> v >= k * d) by (nonlinear_arith)
        requires v == d * q + v % d, 0 <= v % d < d;
}

/// Against neighbours that agree on a sample, the blend is their mean with the target's,
/// which counts for two of them: rounded to the nearest, and up from the middle.
pub proof fn law_blends_are_means(c: int, v: int, strength: int, n: int, maxval: int)
    requires
        0 <= n,
        0 <= c <= maxval,
        0 <= v <= maxval,
    ensures
        ({
            let w = weight_of(c - v, strength);
            let r = blended(c, |k: int| v, strength, n, maxval);
            let total = 32 + n * w;
            -total <= 2 * (32 * c + (n * w) * v - r * total) < total
        }),
{
    let f = |k: int| v;
    let w = weight_of(c - v, strength);
    lemma_equal_sums(c, v, strength, n);
    reveal(blended);
    lemma_weight_range(c - v, strength);
    assert(0 <= n * w) by (nonlinear_arith)
        requires 0 <= n, 0 <= w;
    let total = total_weight(c, f, strength, n);
    let s = weighted_sum(c, f, strength, n);
    let q = (s + total / 2) / total;
    let (lo, hi) = if c <= v { (c, v) } else { (v, c) };
    lemma_sums_between(c, f, strength, n, lo, hi);
    lemma_mean(s, total, lo, hi);
    assert(q == blended(c, f, strength, n, maxval));
}

/// A division that is rounded to the nearest.
proof fn lemma_mean(s: int, total: int, lo: int, hi: int)
    requires
        total > 0,
        lo * total <= s <= hi * total,
    ensures
        ({
            let q = (s + total / 2) / total;
            &&& lo <= q <= hi
            &&& -total <= 2 * (s - q * total) < total
        }),
{
    let q = (s + total / 2) / total;
    vstd::arithmetic::div_mod::lemma_fundamental_div_mod(s + total / 2, total);
    vstd::arithmetic::div_mod::lemma_mod_bound(s + total / 2, total);
    assert(total * q == q * total) by (nonlinear_arith);
    let m = (s + total / 2) % total;
    assert(s + total / 2 == q * total + m);
    assert(lo <= q <= hi) by (nonlinear_arith)
        requires lo * total <= s <= hi * total, s + total / 2 == q * total + m, 0 <= m < total, total > 0;
}

proof fn lemma_equal_sums(c: int, v: int, strength: int, n: int)
    requires
        0 <= n,
    ensures
        ({
            let w = weight_of(c - v, strength);
            &&& total_weight(c, |k: int| v, strength, n) == 32 + n * w
            &&& weighted_sum(c, |k: int| v, strength, n) == 32 * c + (n * w) * v
        }),
    decreases n,
{
    let w = weight_of(c - v, strength);
    if n > 0 {
        lemma_equal_sums(c, v, strength, n - 1);
        assert((n - 1) * w + w == n * w) by (nonlinear_arith);
        assert(((n - 1) * w) * v + v * w == (n * w) * v) by (nonlinear_arith);
    } else {
        assert(0 * w == 0 && (0 * w) * v == 0) by (nonlinear_arith);
    }
}

/// Every neighbour has its own weight: of two, each pulls the blend by how well it agrees.
pub proof fn law_neighbours_have_their_own_weights(c: int, v: spec_fn(int) -> int, strength: int, maxval: int)
    requires
        0 <= c <= maxval,
        0 <= v(0) <= maxval,
        0 <= v(1) <= maxval,
    ensures
        ({
            let w0 = weight_of(c - v(0), strength);
            let w1 = weight_of(c - v(1), strength);
            let r = blended(c, v, strength, 2, maxval);
            let total = 32 + w0 + w1;
            -total <= 2 * (32 * c + w0 * v(0) + w1 * v(1) - r * total) < total
        }),
{
    reveal(blended);
    reveal_with_fuel(weighted_sum, 3);
    reveal_with_fuel(total_weight, 3);
    let w0 = weight_of(c - v(0), strength);
    let w1 = weight_of(c - v(1), strength);
    lemma_sums_between(c, v, strength, 2, 0, maxval);
    let total = total_weight(c, v, strength, 2);
    let s = weighted_sum(c, v, strength, 2);
    assert(w0 * v(0) == v(0) * w0 && w1 * v(1) == v(1) * w1) by (nonlinear_arith);
    assert(0 * total == 0);
    lemma_mean(s, total, 0, maxval);
}

/// The first of the window among the first `n` places in raster order.
proof fn lemma_first_of(cost: Grid, n: int) -> (m: (int, int))
    requires
        1 <= n <= 81,
    ensures
        in_window(m.0, m.1),
        9 * (m.1 + 4) + m.0 + 4 < n,
        forall|ex: int, ey: int| #[trigger] in_window(ex, ey) && 9 * (ey + 4) + ex + 4 < n ==> precedes(cost, m.0, m.1, ex, ey),
    decreases n,
{
    if n == 1 {
        (-4, -4)
    } else {
        let m = lemma_first_of(cost, n - 1);
        let y = (n - 1) / 9 - 4;
        let x = (n - 1) % 9 - 4;
        assert forall|ex: int, ey: int| #[trigger] in_window(ex, ey) && 9 * (ey + 4) + ex + 4 == n - 1 implies ex == x && ey == y by {}
        if precedes(cost, m.0, m.1, x, y) {
            m
        } else {
            (x, y)
        }
    }
}

/// The best match lies within four samples, and no displacement within them costs less; of
/// those that cost as little none is shorter, and of those as short none comes before it
/// row by row.
pub proof fn law_best_match_is_least(cost: Grid, ex: int, ey: int)
    requires
        -4 <= ex <= 4,
        -4 <= ey <= 4,
    ensures
        ({
            let (dx, dy) = best_match(cost);
            &&& -4 <= dx <= 4 && -4 <= dy <= 4
            &&& cost(dx, dy) <= cost(ex, ey)
            &&& cost(dx, dy) == cost(ex, ey) ==> iabs(dx) + iabs(dy) <= iabs(ex) + iabs(ey)
            &&& cost(dx, dy) == cost(ex, ey) && iabs(dx) + iabs(dy) == iabs(ex) + iabs(ey) ==> dy < ey || dy == ey && dx <= ex
        }),
{
    let m = lemma_first_of(cost, 81);
    assert(is_best_match(cost, m.0, m.1)) by {
        assert forall|fx: int, fy: int| #[trigger] in_window(fx, fy) implies precedes(cost, m.0, m.1, fx, fy) by {
            assert(9 * (fy + 4) + fx + 4 < 81);
        }
    }
    lemma_best_match_unique(cost, m.0, m.1);
    assert(in_window(ex, ey));
}

/// How far off a block is: the sum of the differences over its samples, of which none is
/// negative; and nothing only where all agree.
pub proof fn law_costs_measure_differences<T: Pixel>(tgt: &Plane<T>, nb: &Plane<T>, b: FilterBlock, dx: int, dy: int, x: int, y: int)
    requires
        0 <= x < b.bw,
        0 <= y < b.bh,
    ensures
        whole_cost(tgt, nb, b)(dx, dy) >= tgt.clamped(b.bx + x, b.by + y) - nb.clamped(b.bx + x + dx, b.by + y + dy),
        whole_cost(tgt, nb, b)(dx, dy) >= nb.clamped(b.bx + x + dx, b.by + y + dy) - tgt.clamped(b.bx + x, b.by + y),
        whole_cost(tgt, nb, b)(dx, dy) == 0 ==> tgt.clamped(b.bx + x, b.by + y) == nb.clamped(b.bx + x + dx, b.by + y + dy),
{
    let e = block_error(tgt, b, shifted(nb, b, dx, dy));
    assert forall|u: int, v: int| #[trigger] e(u, v) >= 0 by {}
    lemma_area_holds(e, b.bw as int, b.bh as int, x, y);
}

proof fn lemma_area_holds(f: Grid, x1: int, y1: int, x: int, y: int)
    requires
        forall|u: int, v: int| #[trigger] f(u, v) >= 0,
        0 <= x < x1,
        0 <= y < y1,
    ensures
        area_sum(f, 0, x1, 0, y1) >= f(x, y),
    decreases y1,
{
    lemma_row_not_negative(f, x1, y1 - 1);
    lemma_area_not_negative(f, x1, y1 - 1);
    if y < y1 - 1 {
        lemma_area_holds(f, x1, y1 - 1, x, y);
    } else {
        lemma_row_holds(f, x1, x, y);
    }
}

proof fn lemma_row_holds(f: Grid, x1: int, x: int, y: int)
    requires
        forall|u: int, v: int| #[trigger] f(u, v) >= 0,
        0 <= x < x1,
    ensures
        row_sum(f, 0, x1, y) >= f(x, y),
    decreases x1,
{
    lemma_row_not_negative(f, x1 - 1, y);
    if x < x1 - 1 {
        lemma_row_holds(f, x1 - 1, x, y);
    }
}

/// The eight directions are tried along the axes first, up before down and left before
/// right, and then across in the same order.
pub proof fn law_directions_in_order()
    ensures
        direction(0) == (-1int, 0int) && direction(1) == (1int, 0int),
        direction(2) == (0int, -1int) && direction(3) == (0int, 1int),
        direction(4) == (-1int, -1int) && direction(5) == (-1int, 1int),
        direction(6) == (1int, -1int) && direction(7) == (1int, 1int),
{
}

/// A probe ends at the cheapest of a vector and its eight neighbours, and of those that
/// are as cheap at the one that is tried first.
pub proof fn law_probes_take_the_first_least(cost: Grid, row: int, col: int, step: int, j: int)
    requires
        0 <= j < 8,
        0 < step,
    ensures
        ({
            let p = probe(cost, row, col, cost(row, col), step, 8);
            let there = cost(row + step * direction(j).0, col + step * direction(j).1);
            &&& p.2 == cost(p.0, p.1)
            &&& p.2 <= cost(row, col)
            &&& p.2 <= there
            &&& p.2 == cost(row, col) ==> p.0 == row && p.1 == col
            &&& there == p.2 && p.2 < cost(row, col) ==> exists|i: int|
                0 <= i <= j && p.0 == row + step * (#[trigger] direction(i)).0 && p.1 == col + step * direction(i).1
        }),
{
    lemma_probe(cost, row, col, cost(row, col), step, 8);
    lemma_probe_least(cost, row, col, cost(row, col), step, 8, j);
    lemma_probe_first(cost, row, col, step, 8, j);
}

proof fn lemma_probe_first(cost: Grid, row: int, col: int, step: int, k: int, j: int)
    requires
        0 <= j < k <= 8,
        0 < step,
    ensures
        ({
            let p = probe(cost, row, col, cost(row, col), step, k);
            let there = cost(row + step * direction(j).0, col + step * direction(j).1);
            there == p.2 && p.2 < cost(row, col) ==> exists|i: int|
                0 <= i <= j && p.0 == row + step * (#[trigger] direction(i)).0 && p.1 == col + step * direction(i).1
        }),
    decreases k,
{
    let best = cost(row, col);
    let p = probe(cost, row, col, best, step, k);
    let q = probe(cost, row, col, best, step, k - 1);
    let there = cost(row + step * direction(j).0, col + step * direction(j).1);
    if there == p.2 && p.2 < best {
        if j < k - 1 {
            lemma_probe_first(cost, row, col, step, k - 1, j);
            lemma_probe_least(cost, row, col, best, step, k - 1, j);
            assert(p == q);
        } else if p != q {
            assert(p.0 == row + step * direction(j).0 && p.1 == col + step * direction(j).1);
        } else {
            lemma_probe_found(cost, row, col, step, k - 1);
        }
    }
}

/// What a probe ends at is a direction that it tried, or the start.
proof fn lemma_probe_found(cost: Grid, row: int, col: int, step: int, k: int)
    requires
        0 <= k <= 8,
    ensures
        ({
            let p = probe(cost, row, col, cost(row, col), step, k);
            p.2 < cost(row, col) ==> exists|i: int| 0 <= i < k && p.0 == row + step * (#[trigger] direction(i)).0 && p.1 == col + step * direction(i).1
        }),
    decreases k,
{
    if k > 0 {
        lemma_probe_found(cost, row, col, step, k - 1);
        let d = direction(k - 1);
        assert(d == direction(k - 1));
    }
}

/// Refining tries half samples first, then quarters, then eighths: it ends no worse than
/// the best neighbour at half a sample of where it starts; where none of those is better,
/// than the best at a quarter; and where none of those is either, than the best at an
/// eighth.
pub proof fn law_refinement_tries_every_distance(cost: Grid, row: int, col: int, j: int)
    requires
        forall|r: int, c: int| #[trigger] cost(r, c) >= 0,
        0 <= j < 8,
    ensures
        ({
            let d = direction(j);
            let end = refined(cost, row, col).2;
            let stays = |s: int| forall|i: int| 0 <= i < 8 ==> cost(row + s * (#[trigger] direction(i)).0, col + s * direction(i).1) >= cost(row, col);
            &&& end <= cost(row + 4 * d.0, col + 4 * d.1)
            &&& stays(4) ==> end <= cost(row + 2 * d.0, col + 2 * d.1)
            &&& stays(4) && stays(2) ==> end <= cost(row + 1 * d.0, col + 1 * d.1)
        }),
{
    let stays = |s: int| forall|i: int| 0 <= i < 8 ==> cost(row + s * (#[trigger] direction(i)).0, col + s * direction(i).1) >= cost(row, col);
    let start = cost(row, col);
    let half = settle(cost, row, col, start, 4);
    lemma_settle(cost, row, col, start, 4);
    lemma_settled(cost, row, col, 4, j);
    let quarter = settle(cost, half.0, half.1, half.2, 2);
    lemma_settle(cost, half.0, half.1, half.2, 2);
    lemma_settle(cost, quarter.0, quarter.1, quarter.2, 1);
    if stays(4) {
        lemma_stays(cost, row, col, 4);
        lemma_settled(cost, row, col, 2, j);
        if stays(2) {
            lemma_stays(cost, row, col, 2);
            lemma_settled(cost, row, col, 1, j);
        }
    }
}

/// Settling ends no worse than any neighbour of the start.
proof fn lemma_settled(cost: Grid, row: int, col: int, step: int, j: int)
    requires
        forall|r: int, c: int| #[trigger] cost(r, c) >= 0,
        0 < step,
        0 <= j < 8,
    ensures
        settle(cost, row, col, cost(row, col), step).2 <= cost(row + step * direction(j).0, col + step * direction(j).1),
{
    let best = cost(row, col);
    let p = probe(cost, row, col, best, step, 8);
    lemma_probe(cost, row, col, best, step, 8);
    lemma_probe_least(cost, row, col, best, step, 8, j);
    if 0 <= p.2 < best {
        lemma_settle(cost, p.0, p.1, p.2, step);
    }
}

/// Settling stays where no neighbour is better.
proof fn lemma_stays(cost: Grid, row: int, col: int, step: int)
    requires
        0 < step,
        forall|i: int| 0 <= i < 8 ==> cost(row + step * (#[trigger] direction(i)).0, col + step * direction(i).1) >= cost(row, col),
    ensures
        settle(cost, row, col, cost(row, col), step) == (row, col, cost(row, col)),
{
    lemma_probe(cost, row, col, cost(row, col), step, 8);
    lemma_probe_found(cost, row, col, step, 8);
}

/// The queue holds the frame with a number.
pub open spec fn holds<T>(q: &FrameQueue<T>, n: int) -> bool {
    0 <= n <= u64::MAX && q@.dom().contains(n as u64) && q@[n as u64] is Some
}

/// The neighbours are the frames that the queue holds at a distance of one or two, those
/// at one first and the earlier before the later.
pub proof fn law_neighbours_are_within_two<'a, T>(q: &'a FrameQueue<T>, cur: int)
    requires
        0 <= cur <= u64::MAX - 2,
    ensures
        ({
            let r = neighbours(q, cur);
            let (a, b, c, d) = (holds(q, cur - 1), holds(q, cur + 1), holds(q, cur - 2), holds(q, cur + 2));
            let one = |h: bool| if h { 1int } else { 0 };
            &&& r.len() == one(a) + one(b) + one(c) + one(d)
            &&& a ==> *r[0] == *q@[(cur - 1) as u64]->0
            &&& b ==> *r[one(a)] == *q@[(cur + 1) as u64]->0
            &&& c ==> *r[one(a) + one(b)] == *q@[(cur - 2) as u64]->0
            &&& d ==> *r[one(a) + one(b) + one(c)] == *q@[(cur + 2) as u64]->0
        }),
{
}

/// A frame that is shown, or has no references, or lies too deep, is never filtered; and
/// where a frame is filtered, so is a hidden one that lies higher.
pub proof fn law_only_hidden_references_are_filtered(g: AltrefGate, h: AltrefGate)
    requires
        h.enabled == g.enabled,
        h.max_level == g.max_level,
    ensures
        g.show_frame || g.intra_only || g.pyramid_level > g.max_level || !g.enabled ==> !g.is_open(),
        g.is_open() && !h.show_frame && !h.intra_only && h.pyramid_level <= g.pyramid_level ==> h.is_open(),
        g.enabled && !g.show_frame && !g.intra_only && g.pyramid_level == g.max_level ==> g.is_open(),
{
}

} // verus!
