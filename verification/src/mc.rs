//! Motion compensation: eight-tap interpolation of displaced blocks.

use vstd::arithmetic::power2::*;
use vstd::prelude::*;

use crate::plane::{Pixel, Plane};
use crate::util::{iabs, iclamp, lemma_one_shl_i64, lemma_shr_i32, lemma_shr_i64};

verus! {

/// A motion vector in eighths of a luma sample.
#[derive(Clone, Copy, Debug, PartialEq, Eq, Structural)]
pub struct MotionVector {
    pub row: i16,
    pub col: i16,
}

/// An interpolation filter.
#[derive(Clone, Copy, Debug, PartialEq, Eq, Structural)]
pub enum FilterMode {
    REGULAR,
    SMOOTH,
    SHARP,
    BILINEAR,
    SWITCHABLE,
}

/// The sum of the first `n` taps of `f` on the values `v`.
pub open spec fn tap_sum(f: Seq<i8>, v: spec_fn(int) -> int, n: int) -> int
    decreases n,
{
    if n <= 0 { 0 } else { tap_sum(f, v, n - 1) + f[n - 1] * v(n - 1) }
}

/// `v` divided by an even `d`, rounded half up.
pub open spec fn rounded(v: int, d: int) -> int {
    (v + d / 2) / d
}

/// A product of bounded factors is bounded.
pub proof fn lemma_product(x: int, y: int, bx: int, by: int)
    requires
        iabs(x) <= bx,
        iabs(y) <= by,
    ensures
        iabs(x * y) <= bx * by,
{
    assert(iabs(x * y) <= bx * by) by (nonlinear_arith)
        requires iabs(x) <= bx, iabs(y) <= by,
    ;
}

/// Eight taps on values of at most twenty bits.
pub(crate) fn taps(f: &[i8; 8], v: &[i32; 8], Ghost(g): Ghost<spec_fn(int) -> int>, Ghost(m): Ghost<int>) -> (r: i32)
    requires
        0 <= m <= 0x10_0000,
        forall|i: int| 0 <= i < 8 ==> #[trigger] v@[i] == g(i) && iabs(g(i)) <= m,
    ensures
        r == tap_sum(f@, g, 8),
        iabs(r as int) <= 1024 * m,
{
    let mut sum: i32 = 0;
    let mut i: usize = 0;
    while i < 8
        invariant
            i <= 8,
            0 <= m <= 0x10_0000,
            forall|i: int| 0 <= i < 8 ==> #[trigger] v@[i] == g(i) && iabs(g(i)) <= m,
            sum == tap_sum(f@, g, i as int),
            iabs(sum as int) <= 128 * (i * m),
        decreases 8 - i,
    {
        assert(v@[i as int] == g(i as int));
        proof {
            lemma_product(f@[i as int] as int, g(i as int), 128, m);
            assert((i + 1) * m == i * m + m) by (nonlinear_arith);
            assert(0 <= i * m <= 8 * m) by (nonlinear_arith) requires 0 <= i <= 8, 0 <= m;
        }
        sum = sum + f[i] as i32 * v[i];
        i = i + 1;
    }
    sum
}

/// A rounded division by a power of two.
pub(crate) fn round_by(v: i32, shift: u32, Ghost(d): Ghost<int>) -> (r: i32)
    requires
        1 <= shift <= 11,
        d == pow2(shift as nat),
        iabs(v as int) <= 0x4000_0000,
    ensures
        r == rounded(v as int, d),
{
    proof {
        lemma_one_shl_i64(shift);
        lemma_shr_i64(1i64 << shift, 1);
        lemma2_to64();
        if shift < 11 {
            lemma_pow2_strictly_increases(shift as nat, 11);
        }
    }
    let half: i64 = (1i64 << shift) >> 1u32;
    let w: i32 = v + half as i32;
    proof {
        lemma_shr_i32(w, shift);
    }
    w >> shift
}

/// The taps of the regular interpolation filter, for one to
/// fifteen sixteenths of a sample.
pub const REGULAR_FILTERS: [[i8; 8]; 15] = [
    [0, 2, -6, 126, 8, -2, 0, 0],
    [0, 2, -10, 122, 18, -4, 0, 0],
    [0, 2, -12, 116, 28, -8, 2, 0],
    [0, 2, -14, 110, 38, -10, 2, 0],
    [0, 2, -14, 102, 48, -12, 2, 0],
    [0, 2, -16, 94, 58, -12, 2, 0],
    [0, 2, -14, 84, 66, -12, 2, 0],
    [0, 2, -14, 76, 76, -14, 2, 0],
    [0, 2, -12, 66, 84, -14, 2, 0],
    [0, 2, -12, 58, 94, -16, 2, 0],
    [0, 2, -12, 48, 102, -14, 2, 0],
    [0, 2, -10, 38, 110, -14, 2, 0],
    [0, 2, -8, 28, 116, -12, 2, 0],
    [0, 0, -4, 18, 122, -10, 2, 0],
    [0, 0, -2, 8, 126, -6, 2, 0],
];

/// The four-tap form of the regular filter.
pub const SHORT_FILTERS: [[i8; 8]; 15] = [
    [0, 0, -4, 126, 8, -2, 0, 0],
    [0, 0, -8, 122, 18, -4, 0, 0],
    [0, 0, -10, 116, 28, -6, 0, 0],
    [0, 0, -12, 110, 38, -8, 0, 0],
    [0, 0, -12, 102, 48, -10, 0, 0],
    [0, 0, -14, 94, 58, -10, 0, 0],
    [0, 0, -12, 84, 66, -10, 0, 0],
    [0, 0, -12, 76, 76, -12, 0, 0],
    [0, 0, -10, 66, 84, -12, 0, 0],
    [0, 0, -10, 58, 94, -14, 0, 0],
    [0, 0, -10, 48, 102, -12, 0, 0],
    [0, 0, -8, 38, 110, -12, 0, 0],
    [0, 0, -6, 28, 116, -10, 0, 0],
    [0, 0, -4, 18, 122, -8, 0, 0],
    [0, 0, -2, 8, 126, -4, 0, 0],
];

/// The taps at `frac` sixteenths of a sample for a block of the given extent
/// along the filter: blocks of at most four samples take the four-tap form.
pub open spec fn regular(frac: int, extent: int) -> Seq<i8> {
    if extent > 4 { REGULAR_FILTERS@[frac - 1]@ } else { SHORT_FILTERS@[frac - 1]@ }
}

/// The block sizes that can be interpolated: a power of two wide, and an even
/// number of rows.
pub open spec fn tappable(w: int, h: int) -> bool {
    &&& w == 2 || w == 4 || w == 8 || w == 16
    &&& 0 < h <= 16
    &&& h % 2 == 0
}

/// What a sample of the horizontal pass is divided by: the rest of the filter's
/// scale of 128 is kept for the vertical pass.
pub open spec fn horizontal_scale(bit_depth: int) -> int {
    if bit_depth == 12 { 32 } else { 8 }
}

/// The rest of the scale of 128 after the horizontal pass.
pub open spec fn kept_scale(bit_depth: int) -> int {
    if bit_depth == 12 { 4 } else { 16 }
}

/// The horizontal pass at `(x, y)` of the picture.
pub open spec fn across<T: Pixel>(p: &Plane<T>, x: int, y: int, col_frac: int, w: int, bit_depth: int) -> int {
    rounded(tap_sum(regular(col_frac, w), |k: int| p.sample(x - 3 + k, y), 8), horizontal_scale(bit_depth))
}

/// The picture at `(x, y)` plus a displacement of `col_frac` and `row_frac`
/// sixteenths of a sample: a copy where both are zero, filtered in one direction
/// where the other is zero, and otherwise across and then down.
pub open spec fn interpolated<T: Pixel>(p: &Plane<T>, x: int, y: int, col_frac: int, row_frac: int, w: int, h: int, bit_depth: int) -> int {
    let pmax = pow2(bit_depth as nat) - 1;
    let rest = kept_scale(bit_depth);
    if col_frac == 0 && row_frac == 0 {
        p.sample(x, y)
    } else if col_frac == 0 {
        iclamp(rounded(tap_sum(regular(row_frac, h), |k: int| p.sample(x, y - 3 + k), 8), 128), 0, pmax)
    } else if row_frac == 0 {
        iclamp(rounded(across(p, x, y, col_frac, w, bit_depth), rest), 0, pmax)
    } else {
        iclamp(
            rounded(tap_sum(regular(row_frac, h), |k: int| across(p, x, y - 3 + k, col_frac, w, bit_depth), 8), 128 * rest),
            0,
            pmax,
        )
    }
}

/// The plane holds every sample that the interpolation of a block of at most
/// 16x16 reads, wherever the block was displaced to.
pub open spec fn padded<T: Pixel>(p: &Plane<T>, bit_depth: int) -> bool {
    &&& p.wf()
    &&& p.cfg.xpad >= 3
    &&& p.cfg.ypad >= 3
    &&& p.cfg.has(p.cfg.width + 22, p.cfg.height + 22)
    &&& bit_depth == 8 || bit_depth == 10 || bit_depth == 12
    &&& pow2(bit_depth as nat) - 1 <= T::max_val()
    &&& p.samples_at_most(pow2(bit_depth as nat) - 1)
}

/// The samples that interpolation at `(x, y)` reads lie inside the allocation.
pub open spec fn surrounded<T: Pixel>(p: &Plane<T>, x: int, y: int) -> bool {
    &&& p.cfg.has(x - 3, y - 3)
    &&& p.cfg.has(x + 4, y + 4)
}

/// A block of at most 16x16 samples, sixteen to a row.
pub struct Prediction {
    pub data: [i32; 256],
}

impl Prediction {
    /// The sample at column `x`, row `y`.
    pub open spec fn sample(&self, x: int, y: int) -> int {
        self.data@[y * 16 + x] as int
    }
}

/// One tap position of the regular filter.
fn regular_filter(frac: i32, extent: usize) -> (r: [i8; 8])
    requires
        1 <= frac <= 15,
    ensures
        r@ == regular(frac as int, extent as int),
{
    if extent > 4 { REGULAR_FILTERS[(frac - 1) as usize] } else { SHORT_FILTERS[(frac - 1) as usize] }
}

/// A sample of the allocation, within the bit depth.
fn read<T: Pixel>(p: &Plane<T>, x: isize, y: isize, Ghost(pmax): Ghost<int>) -> (r: i32)
    requires
        p.wf(),
        p.cfg.has(x as int, y as int),
        p.samples_at_most(pmax),
    ensures
        r == p.sample(x as int, y as int),
        0 <= r <= pmax,
{
    p.at(x, y).to_i32()
}

/// Eight samples from `(x, y)` on, rightwards or downwards, through the filter.
fn filter_line<T: Pixel>(p: &Plane<T>, x: isize, y: isize, down: bool, frac: i32, extent: usize, Ghost(pmax): Ghost<int>) -> (r: i32)
    requires
        p.wf(),
        p.samples_at_most(pmax),
        0 <= pmax <= 4095,
        1 <= frac <= 15,
        p.cfg.has(x as int, y as int),
        down ==> p.cfg.has(x as int, y + 7),
        !down ==> p.cfg.has(x + 7, y as int),
    ensures
        down ==> r == tap_sum(regular(frac as int, extent as int), |k: int| p.sample(x as int, y + k), 8),
        !down ==> r == tap_sum(regular(frac as int, extent as int), |k: int| p.sample(x + k, y as int), 8),
        iabs(r as int) <= 1024 * pmax,
{
    let f: [i8; 8] = regular_filter(frac, extent);
    let mut v: [i32; 8] = [0; 8];
    let ghost g = if down { |k: int| p.sample(x as int, y + k) } else { |k: int| p.sample(x + k, y as int) };
    let mut k: usize = 0;
    while k < 8
        invariant
            k <= 8,
            p.wf(),
            p.samples_at_most(pmax),
            0 <= pmax <= 4095,
            p.cfg.has(x as int, y as int),
            down ==> p.cfg.has(x as int, y + 7),
            !down ==> p.cfg.has(x + 7, y as int),
            g == if down { |k: int| p.sample(x as int, y + k) } else { |k: int| p.sample(x + k, y as int) },
            forall|i: int| 0 <= i < k ==> #[trigger] v@[i] == g(i) && iabs(g(i)) <= pmax,
        decreases 8 - k,
    {
        if down {
            v[k] = read(p, x, y + k as isize, Ghost(pmax));
        } else {
            v[k] = read(p, x + k as isize, y, Ghost(pmax));
        }
        assert(v@[k as int] == g(k as int));
        k = k + 1;
    }
    taps(&f, &v, Ghost(g), Ghost(pmax))
}

/// The horizontal pass at `(x, y)`.
fn across_at<T: Pixel>(p: &Plane<T>, x: isize, y: isize, col_frac: i32, w: usize, bit_depth: usize) -> (r: i32)
    requires
        padded(p, bit_depth as int),
        1 <= col_frac <= 15,
        p.cfg.has(x - 3, y as int),
        p.cfg.has(x + 4, y as int),
    ensures
        r == across(p, x as int, y as int, col_frac as int, w as int, bit_depth as int),
        iabs(r as int) <= 0x40000,
{
    proof {
        lemma2_to64();
    }
    let ghost pmax = pow2(bit_depth as nat) - 1;
    let sum: i32 = filter_line(p, x - 3, y, false, col_frac, w, Ghost(pmax));
    proof {
        assert((|k: int| p.sample(x - 3 + k, y as int)) =~= (|k: int| p.sample((x - 3) as isize + k, y as int)));
    }
    let shift: u32 = if bit_depth == 12 { 5 } else { 3 };
    round_by(sum, shift, Ghost(horizontal_scale(bit_depth as int)))
}

/// `v` brought into the range of the bit depth.
fn clip_pixel(v: i32, bit_depth: usize) -> (r: i32)
    requires
        bit_depth == 8 || bit_depth == 10 || bit_depth == 12,
    ensures
        r == iclamp(v as int, 0, pow2(bit_depth as nat) - 1),
        0 <= r <= pow2(bit_depth as nat) - 1 <= 4095,
{
    proof {
        lemma2_to64();
    }
    let pmax: i32 = if bit_depth == 8 { 255 } else if bit_depth == 10 { 1023 } else { 4095 };
    if v < 0 { 0 } else if v > pmax { pmax } else { v }
}

/// The picture at `(x, y)` plus a displacement in one direction, or none.
fn interpolate_plain<T: Pixel>(p: &Plane<T>, x: isize, y: isize, col_frac: i32, row_frac: i32, w: usize, h: usize, bit_depth: usize) -> (r: i32)
    requires
        padded(p, bit_depth as int),
        0 <= col_frac <= 15,
        0 <= row_frac <= 15,
        col_frac == 0 || row_frac == 0,
        surrounded(p, x as int, y as int),
    ensures
        r == interpolated(p, x as int, y as int, col_frac as int, row_frac as int, w as int, h as int, bit_depth as int),
        0 <= r <= pow2(bit_depth as nat) - 1 <= 4095,
{
    proof {
        lemma2_to64();
    }
    let ghost pmax = pow2(bit_depth as nat) - 1;
    if col_frac == 0 && row_frac == 0 {
        read(p, x, y, Ghost(pmax))
    } else if col_frac == 0 {
        let sum: i32 = filter_line(p, x, y - 3, true, row_frac, h, Ghost(pmax));
        proof {
            assert((|k: int| p.sample(x as int, y - 3 + k)) =~= (|k: int| p.sample(x as int, (y - 3) as isize + k)));
        }
        clip_pixel(round_by(sum, 7, Ghost(128)), bit_depth)
    } else {
        let a: i32 = across_at(p, x, y, col_frac, w, bit_depth);
        let shift: u32 = if bit_depth == 12 { 2 } else { 4 };
        clip_pixel(round_by(a, shift, Ghost(kept_scale(bit_depth as int))), bit_depth)
    }
}

/// The horizontal pass over the rows that a block of `w` by `h` needs, sixteen
/// to a row, from three rows above it on.
fn across_rows<T: Pixel>(p: &Plane<T>, x: isize, y: isize, w: usize, h: usize, col_frac: i32, bit_depth: usize) -> (r: [i32; 368])
    requires
        padded(p, bit_depth as int),
        0 < w <= 16,
        0 < h <= 16,
        1 <= col_frac <= 15,
        surrounded(p, x as int, y as int),
        surrounded(p, x + w - 1, y + h - 1),
    ensures
        forall|i: int, j: int| 0 <= i < w && 0 <= j < h + 7 ==> {
            &&& #[trigger] r@[j * 16 + i] == across(p, x + i, y - 3 + j, col_frac as int, w as int, bit_depth as int)
            &&& iabs(r@[j * 16 + i] as int) <= 0x40000
        },
{
    let mut mid: [i32; 368] = [0; 368];
    let mut j: usize = 0;
    while j < h + 7
        invariant
            j <= h + 7,
            padded(p, bit_depth as int),
            0 < w <= 16,
            0 < h <= 16,
            1 <= col_frac <= 15,
            surrounded(p, x as int, y as int),
            surrounded(p, x + w - 1, y + h - 1),
            forall|a: int, b: int| 0 <= a < w && 0 <= b < j ==> {
                &&& #[trigger] mid@[b * 16 + a] == across(p, x + a, y - 3 + b, col_frac as int, w as int, bit_depth as int)
                &&& iabs(mid@[b * 16 + a] as int) <= 0x40000
            },
        decreases h + 7 - j,
    {
        let mut i: usize = 0;
        while i < w
            invariant
                i <= w,
                j < h + 7,
                padded(p, bit_depth as int),
                0 < w <= 16,
                0 < h <= 16,
                1 <= col_frac <= 15,
                surrounded(p, x as int, y as int),
                surrounded(p, x + w - 1, y + h - 1),
                forall|a: int, b: int| 0 <= a < w && 0 <= b && (b < j || b == j && a < i) ==> {
                    &&& #[trigger] mid@[b * 16 + a] == across(p, x + a, y - 3 + b, col_frac as int, w as int, bit_depth as int)
                    &&& iabs(mid@[b * 16 + a] as int) <= 0x40000
                },
            decreases w - i,
        {
            mid[j * 16 + i] = across_at(p, x + i as isize, y - 3 + j as isize, col_frac, w, bit_depth);
            i = i + 1;
        }
        j = j + 1;
    }
    mid
}

/// The vertical pass at column `i`, row `j` of a block.
fn down_at(mid: &[i32; 368], i: usize, j: usize, h: usize, row_frac: i32, bit_depth: usize, Ghost(g): Ghost<spec_fn(int) -> int>) -> (r: i32)
    requires
        i < 16,
        j < h <= 16,
        1 <= row_frac <= 15,
        bit_depth == 8 || bit_depth == 10 || bit_depth == 12,
        forall|k: int| 0 <= k < 8 ==> mid@[(j + k) * 16 + i] == #[trigger] g(k) && iabs(g(k)) <= 0x40000,
    ensures
        r == iclamp(rounded(tap_sum(regular(row_frac as int, h as int), g, 8), 128 * kept_scale(bit_depth as int)), 0, pow2(bit_depth as nat) - 1),
        0 <= r <= pow2(bit_depth as nat) - 1 <= 4095,
{
    let f: [i8; 8] = regular_filter(row_frac, h);
    let mut v: [i32; 8] = [0; 8];
    let mut k: usize = 0;
    while k < 8
        invariant
            k <= 8,
            i < 16,
            j < h <= 16,
            forall|k: int| 0 <= k < 8 ==> mid@[(j + k) * 16 + i] == #[trigger] g(k) && iabs(g(k)) <= 0x40000,
            forall|n: int| 0 <= n < k ==> #[trigger] v@[n] == g(n) && iabs(g(n)) <= 0x40000,
        decreases 8 - k,
    {
        assert(mid@[(j + k) * 16 + i] == g(k as int));
        v[k] = mid[(j + k) * 16 + i];
        k = k + 1;
    }
    proof {
        lemma2_to64();
    }
    let sum: i32 = taps(&f, &v, Ghost(g), Ghost(0x40000));
    let shift: u32 = if bit_depth == 12 { 9 } else { 11 };
    clip_pixel(round_by(sum, shift, Ghost(128 * kept_scale(bit_depth as int))), bit_depth)
}

/// Interpolates the block of `w` by `h` samples at `(x, y)` of the picture,
/// displaced by `col_frac` and `row_frac` sixteenths of a sample.
pub fn put_8tap<T: Pixel>(dst: &mut Prediction, p: &Plane<T>, x: isize, y: isize, w: usize, h: usize, col_frac: i32, row_frac: i32, bit_depth: usize)
    requires
        padded(p, bit_depth as int),
        tappable(w as int, h as int),
        0 <= col_frac <= 15,
        0 <= row_frac <= 15,
        surrounded(p, x as int, y as int),
        surrounded(p, x + w - 1, y + h - 1),
    ensures
        forall|i: int, j: int| 0 <= i < w && 0 <= j < h ==> {
            &&& #[trigger] final(dst).sample(i, j) == interpolated(p, x + i, y + j, col_frac as int, row_frac as int, w as int, h as int, bit_depth as int)
            &&& 0 <= final(dst).sample(i, j) <= pow2(bit_depth as nat) - 1
        },
{
    let both: bool = col_frac != 0 && row_frac != 0;
    let mid: [i32; 368] = if both { across_rows(p, x, y, w, h, col_frac, bit_depth) } else { [0; 368] };
    let mut j: usize = 0;
    while j < h
        invariant
            j <= h,
            padded(p, bit_depth as int),
            0 < w <= 16,
            0 < h <= 16,
            0 <= col_frac <= 15,
            0 <= row_frac <= 15,
            surrounded(p, x as int, y as int),
            surrounded(p, x + w - 1, y + h - 1),
            both == (col_frac != 0 && row_frac != 0),
            both ==> forall|i: int, j: int| 0 <= i < w && 0 <= j < h + 7 ==> {
                &&& #[trigger] mid@[j * 16 + i] == across(p, x + i, y - 3 + j, col_frac as int, w as int, bit_depth as int)
                &&& iabs(mid@[j * 16 + i] as int) <= 0x40000
            },
            forall|a: int, b: int| 0 <= a < w && 0 <= b < j ==> {
                &&& #[trigger] dst.sample(a, b) == interpolated(p, x + a, y + b, col_frac as int, row_frac as int, w as int, h as int, bit_depth as int)
                &&& 0 <= dst.sample(a, b) <= pow2(bit_depth as nat) - 1
            },
        decreases h - j,
    {
        let mut i: usize = 0;
        while i < w
            invariant
                i <= w,
                j < h,
                padded(p, bit_depth as int),
                0 < w <= 16,
                0 < h <= 16,
                0 <= col_frac <= 15,
                0 <= row_frac <= 15,
                surrounded(p, x as int, y as int),
                surrounded(p, x + w - 1, y + h - 1),
                both == (col_frac != 0 && row_frac != 0),
                both ==> forall|i: int, j: int| 0 <= i < w && 0 <= j < h + 7 ==> {
                    &&& #[trigger] mid@[j * 16 + i] == across(p, x + i, y - 3 + j, col_frac as int, w as int, bit_depth as int)
                    &&& iabs(mid@[j * 16 + i] as int) <= 0x40000
                },
                forall|a: int, b: int| 0 <= a < w && 0 <= b && (b < j || b == j && a < i) ==> {
                    &&& #[trigger] dst.sample(a, b) == interpolated(p, x + a, y + b, col_frac as int, row_frac as int, w as int, h as int, bit_depth as int)
                    &&& 0 <= dst.sample(a, b) <= pow2(bit_depth as nat) - 1
                },
            decreases w - i,
        {
            let v: i32 = if both {
                let ghost g = |k: int| across(p, x + i, y + j - 3 + k, col_frac as int, w as int, bit_depth as int);
                proof {
                    assert forall|k: int| 0 <= k < 8 implies mid@[(j + k) * 16 + i] == #[trigger] g(k) && iabs(g(k)) <= 0x40000 by {
                        assert(mid@[(j + k) * 16 + i] == across(p, x + i, y - 3 + (j + k), col_frac as int, w as int, bit_depth as int));
                    }
                }
                down_at(&mid, i, j, h, row_frac, bit_depth, Ghost(g))
            } else {
                interpolate_plain(p, x + i as isize, y + j as isize, col_frac, row_frac, w, h, bit_depth)
            };
            assert(v == interpolated(p, x + i, y + j, col_frac as int, row_frac as int, w as int, h as int, bit_depth as int));
            let ghost before = *dst;
            dst.data[j * 16 + i] = v;
            proof {
                assert forall|a: int, b: int| 0 <= a < w && 0 <= b && (b < j || b == j && a < i + 1) implies {
                    &&& #[trigger] dst.sample(a, b) == interpolated(p, x + a, y + b, col_frac as int, row_frac as int, w as int, h as int, bit_depth as int)
                    &&& 0 <= dst.sample(a, b) <= pow2(bit_depth as nat) - 1
                } by {
                    if b < j || a < i {
                        assert(dst.sample(a, b) == before.sample(a, b));
                    }
                }
            }
            i = i + 1;
        }
        j = j + 1;
    }
}

/// The sum of a filter's taps.
pub open spec fn gain(f: Seq<i8>) -> int {
    f[0] + f[1] + f[2] + f[3] + f[4] + f[5] + f[6] + f[7]
}

/// Eight taps weigh eight values, each its own: a value alone comes out times its tap, equal
/// values times the sum of the taps, and the sum of two inputs is filtered to the sum of
/// what they are filtered to.
pub proof fn law_taps_weigh_their_values(f: Seq<i8>, v: spec_fn(int) -> int, w: spec_fn(int) -> int, x: int, i: int)
    requires
        f.len() == 8,
        0 <= i < 8,
    ensures
        tap_sum(f, |k: int| if k == i { x } else { 0 }, 8) == f[i] * x,
        tap_sum(f, |k: int| x, 8) == gain(f) * x,
        tap_sum(f, |k: int| v(k) + w(k), 8) == tap_sum(f, v, 8) + tap_sum(f, w, 8),
{
    reveal_with_fuel(tap_sum, 9);
    let one = |k: int| if k == i { x } else { 0 };
    assert(forall|k: int| #![trigger f[k]] f[k] * 0 == 0);
    assert(gain(f) * x == f[0] * x + f[1] * x + f[2] * x + f[3] * x + f[4] * x + f[5] * x + f[6] * x + f[7] * x) by (nonlinear_arith)
        requires gain(f) == f[0] + f[1] + f[2] + f[3] + f[4] + f[5] + f[6] + f[7];
    assert forall|k: int| #![trigger f[k]] f[k] * (v(k) + w(k)) == f[k] * v(k) + f[k] * w(k) by {
        lemma_distributes(f[k] as int, v(k), w(k));
    }
}

proof fn lemma_distributes(a: int, b: int, c: int)
    ensures
        a * (b + c) == a * b + a * c,
{
    assert(a * (b + c) == a * b + a * c) by (nonlinear_arith);
}

/// What eight taps give depends on eight values.
pub(crate) proof fn lemma_same_taps(f: Seq<i8>, v: spec_fn(int) -> int, w: spec_fn(int) -> int, n: int)
    requires
        forall|k: int| 0 <= k < n ==> #[trigger] v(k) == w(k),
    ensures
        tap_sum(f, v, n) == tap_sum(f, w, n),
    decreases n,
{
    if n > 0 {
        lemma_same_taps(f, v, w, n - 1);
        assert(v(n - 1) == w(n - 1));
    }
}

/// A single tap gives its value.
pub(crate) proof fn lemma_single_tap(f: Seq<i8>, v: spec_fn(int) -> int, i: int)
    requires
        f.len() == 8,
        0 <= i < 8,
        forall|k: int| 0 <= k < 8 && k != i ==> #[trigger] f[k] == 0,
    ensures
        tap_sum(f, v, 8) == f[i] * v(i),
{
    reveal_with_fuel(tap_sum, 9);
    assert(forall|k: int| #![trigger v(k)] 0 * v(k) == 0);
}

/// Equal values come out times the sum of the taps.
pub(crate) proof fn lemma_equal_taps(f: Seq<i8>, v: spec_fn(int) -> int, x: int)
    requires
        f.len() == 8,
        forall|k: int| 0 <= k < 8 ==> #[trigger] v(k) == x,
    ensures
        tap_sum(f, v, 8) == gain(f) * x,
{
    lemma_same_taps(f, v, |k: int| x, 8);
    law_taps_weigh_their_values(f, v, v, x, 0);
}

/// Rounding goes to the nearest multiple, up from the middle, and undoes a multiplication.
pub proof fn law_rounding_is_to_the_nearest(v: int, d: int, k: int)
    requires
        d > 0,
        d % 2 == 0,
    ensures
        -d <= 2 * (v - rounded(v, d) * d) < d,
        rounded(k * d, d) == k,
{
    let q = rounded(v, d);
    vstd::arithmetic::div_mod::lemma_fundamental_div_mod(v + d / 2, d);
    vstd::arithmetic::div_mod::lemma_mod_bound(v + d / 2, d);
    assert(d * q == q * d) by (nonlinear_arith);
    assert(0 <= d / 2 < d);
    vstd::arithmetic::div_mod::lemma_fundamental_div_mod_converse(k * d + d / 2, d, k, d / 2);
}

/// The interpolation filters keep the level of what they filter: their taps add up to 128.
/// A filter for as far from the next sample is the mirror image, and half way it is its
/// own. Four-tap filters leave the outer samples alone.
pub proof fn law_filters_are_balanced(frac: int, extent: int, k: int)
    requires
        1 <= frac <= 15,
        0 <= k < 8,
    ensures
        regular(frac, extent).len() == 8,
        gain(regular(frac, extent)) == 128,
        regular(frac, extent)[k] == regular(16 - frac, extent)[7 - k],
        regular(frac, extent)[3] > 0,
        extent <= 4 && (k < 2 || k > 5) ==> regular(frac, extent)[k] == 0,
        frac < 8 ==> regular(frac, extent)[3] > regular(frac, extent)[4],
{
}

/// A picture that is flat around a place is flat between its samples.
pub proof fn law_flat_pictures_stay_flat<T: Pixel>(
    p: &Plane<T>,
    x: int,
    y: int,
    col_frac: int,
    row_frac: int,
    w: int,
    h: int,
    bit_depth: int,
    v: int,
)
    requires
        0 <= col_frac <= 15,
        0 <= row_frac <= 15,
        bit_depth == 8 || bit_depth == 10 || bit_depth == 12,
        0 <= v <= pow2(bit_depth as nat) - 1,
        forall|a: int, b: int| x - 3 <= a <= x + 4 && y - 3 <= b <= y + 4 ==> #[trigger] p.sample(a, b) == v,
    ensures
        interpolated(p, x, y, col_frac, row_frac, w, h, bit_depth) == v,
{
    let s = horizontal_scale(bit_depth);
    let rest = kept_scale(bit_depth);
    if col_frac == 0 && row_frac == 0 {
    } else if col_frac == 0 {
        law_filters_are_balanced(row_frac, h, 0);
        lemma_equal_taps(regular(row_frac, h), |k: int| p.sample(x, y - 3 + k), v);
        law_rounding_is_to_the_nearest(0, 128, v);
    } else {
        law_filters_are_balanced(col_frac, w, 0);
        assert forall|b: int| y - 3 <= b <= y + 4 implies #[trigger] across(p, x, b, col_frac, w, bit_depth) == rest * v by {
            let line = |k: int| p.sample(x - 3 + k, b);
            lemma_equal_taps(regular(col_frac, w), line, v);
            assert(128 * v == (rest * v) * s);
            law_rounding_is_to_the_nearest(0, s, rest * v);
        }
        if row_frac == 0 {
            assert(rest * v == v * rest);
            law_rounding_is_to_the_nearest(0, rest, v);
        } else {
            law_filters_are_balanced(row_frac, h, 0);
            lemma_equal_taps(regular(row_frac, h), |k: int| across(p, x, y - 3 + k, col_frac, w, bit_depth), rest * v);
            assert(128 * (rest * v) == v * (128 * rest));
            law_rounding_is_to_the_nearest(0, 128 * rest, v);
        }
    }
}

/// Between two rows the rows are weighed from the third above to the fourth below, between
/// two columns the columns from the third to the left to the fourth to the right: a single
/// line that is not dark comes out by its tap.
pub proof fn law_lines_are_weighed_by_their_taps<T: Pixel>(p: &Plane<T>, x: int, y: int, frac: int, w: int, h: int, bit_depth: int, v: int, i: int)
    requires
        1 <= frac <= 15,
        bit_depth == 8 || bit_depth == 10 || bit_depth == 12,
        0 <= v,
        0 <= i < 8,
    ensures
        ({
            let pmax = pow2(bit_depth as nat) - 1;
            let down = interpolated(p, x, y, 0, frac, w, h, bit_depth);
            let along = interpolated(p, x, y, frac, 0, w, h, bit_depth);
            let row = regular(frac, h)[i] * v;
            let col = regular(frac, w)[i] * v;
            &&& (forall|b: int| #[trigger] p.sample(x, b) == if b == y - 3 + i { v } else { 0 }) && 0 <= row <= 128 * pmax ==> -64 <= row - 128 * down <= 64
            &&& (forall|a: int| #[trigger] p.sample(a, y) == if a == x - 3 + i { v } else { 0 }) && 0 <= col <= 128 * pmax ==> -80 <= col - 128 * along <= 80
        }),
{
    let pmax = pow2(bit_depth as nat) - 1;
    lemma_pow2_pos(bit_depth as nat);
    law_filters_are_balanced(frac, h, i);
    law_filters_are_balanced(frac, w, i);
    let one = |k: int| if k == i { v } else { 0 };
    law_taps_weigh_their_values(regular(frac, h), one, one, v, i);
    law_taps_weigh_their_values(regular(frac, w), one, one, v, i);
    let row = regular(frac, h)[i] * v;
    let col = regular(frac, w)[i] * v;
    if forall|b: int| #[trigger] p.sample(x, b) == if b == y - 3 + i { v } else { 0 } {
        lemma_same_taps(regular(frac, h), |k: int| p.sample(x, y - 3 + k), one, 8);
        law_rounding_is_to_the_nearest(row, 128, 0);
    }
    if forall|a: int| #[trigger] p.sample(a, y) == if a == x - 3 + i { v } else { 0 } {
        lemma_same_taps(regular(frac, w), |k: int| p.sample(x - 3 + k, y), one, 8);
        law_rounding_is_to_the_nearest(col, horizontal_scale(bit_depth), 0);
        law_rounding_is_to_the_nearest(across(p, x, y, frac, w, bit_depth), kept_scale(bit_depth), 0);
    }
}

/// An interpolated sample is made of the eight by eight samples around its place.
pub proof fn law_interpolation_is_local<T: Pixel>(
    p: &Plane<T>,
    q: &Plane<T>,
    x: int,
    y: int,
    u: int,
    v: int,
    col_frac: int,
    row_frac: int,
    w: int,
    h: int,
    bit_depth: int,
)
    requires
        forall|a: int, b: int| -3 <= a <= 4 && -3 <= b <= 4 ==> p.sample(x + a, y + b) == #[trigger] q.sample(u + a, v + b),
    ensures
        interpolated(p, x, y, col_frac, row_frac, w, h, bit_depth) == interpolated(q, u, v, col_frac, row_frac, w, h, bit_depth),
{
    assert(p.sample(x + 0, y + 0) == q.sample(u + 0, v + 0));
    assert forall|b: int| -3 <= b <= 4 implies across(p, x, y + b, col_frac, w, bit_depth) == #[trigger] across(q, u, v + b, col_frac, w, bit_depth) by {
        let f = |k: int| p.sample(x - 3 + k, y + b);
        let g = |k: int| q.sample(u - 3 + k, v + b);
        assert forall|k: int| 0 <= k < 8 implies #[trigger] f(k) == g(k) by {
            assert(p.sample(x + (k - 3), y + b) == q.sample(u + (k - 3), v + b));
        }
        lemma_same_taps(regular(col_frac, w), f, g, 8);
    }
    let f = |k: int| p.sample(x, y - 3 + k);
    let g = |k: int| q.sample(u, v - 3 + k);
    assert forall|k: int| 0 <= k < 8 implies #[trigger] f(k) == g(k) by {
        assert(p.sample(x + 0, y + (k - 3)) == q.sample(u + 0, v + (k - 3)));
    }
    lemma_same_taps(regular(row_frac, h), f, g, 8);
    let f2 = |k: int| across(p, x, y - 3 + k, col_frac, w, bit_depth);
    let g2 = |k: int| across(q, u, v - 3 + k, col_frac, w, bit_depth);
    assert forall|k: int| 0 <= k < 8 implies #[trigger] f2(k) == g2(k) by {
        assert(across(p, x, y + (k - 3), col_frac, w, bit_depth) == across(q, u, v + (k - 3), col_frac, w, bit_depth));
    }
    lemma_same_taps(regular(row_frac, h), f2, g2, 8);
    assert(across(p, x, y + 0, col_frac, w, bit_depth) == across(q, u, v + 0, col_frac, w, bit_depth));
}

/// Both passes together undo the scale of the taps twice.
pub proof fn law_scales_are_undone(bit_depth: int)
    ensures
        horizontal_scale(bit_depth) * kept_scale(bit_depth) == 128,
        horizontal_scale(12) == 4 * horizontal_scale(10),
        horizontal_scale(10) == horizontal_scale(8),
        horizontal_scale(8) == 8,
{
}

} // verus!
