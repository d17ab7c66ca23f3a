//! Local warped motion: the least-squares affine solve over neighbouring motion
//! vectors, the shear decomposition of its result, and the two-pass eight-tap
//! prediction of a warped block.

use vstd::arithmetic::div_mod::lemma_fundamental_div_mod;
use vstd::arithmetic::power2::*;
use vstd::bits::lemma_u64_shr_is_div;
use vstd::prelude::*;

use crate::mc::{gain, law_rounding_is_to_the_nearest, lemma_product, round_by, rounded, tap_sum, taps, MotionVector};
use crate::plane::{Pixel, Plane};
use crate::util::{
    abs_i32, abs_i64, floor_log2, iabs, iclamp, imax, imin, lemma_floor_log2, lemma_floor_log2_above, lemma_floor_log2_below,
    lemma_one_shl_i64, lemma_one_shl_u64, lemma_shr_i32, lemma_shr_i64, trunc32, truncate_i32, u64log2,
};

verus! {

/// A derived warp model. `valid` says that the block is to be warped; otherwise
/// it is predicted by translation.
#[derive(Clone, Copy, Debug, PartialEq, Eq)]
pub struct WarpedMotionParams {
    pub matrix: [i32; 6],
    pub abcd: [i16; 4],
    pub valid: bool,
}

impl Default for WarpedMotionParams {
    /// The identity, not to be applied.
    fn default() -> (r: Self)
        ensures
            r.matrix@ =~= seq![0i32, 0, 0x10000, 0, 0, 0x10000],
            r.abcd@ =~= seq![0i16, 0, 0, 0],
            !r.valid,
    {
        WarpedMotionParams { matrix: [0, 0, 0x10000, 0, 0, 0x10000], abcd: [0, 0, 0, 0], valid: false }
    }
}

impl WarpedMotionParams {
    /// Horizontal shear along a row.
    pub fn alpha(&self) -> (r: i16)
        ensures
            r == self.abcd@[0],
    {
        self.abcd[0]
    }

    /// Horizontal shear along a column.
    pub fn beta(&self) -> (r: i16)
        ensures
            r == self.abcd@[1],
    {
        self.abcd[1]
    }

    /// Vertical shear along a row.
    pub fn gamma(&self) -> (r: i16)
        ensures
            r == self.abcd@[2],
    {
        self.abcd[2]
    }

    /// Vertical shear along a column.
    pub fn delta(&self) -> (r: i16)
        ensures
            r == self.abcd@[3],
    {
        self.abcd[3]
    }
}

/// `a` with the sign of `b` applied, in 32-bit arithmetic.
pub open spec fn signed_as(a: int, b: int) -> int {
    if b < 0 { trunc32(-a) } else { a }
}

fn apply_sign(a: i32, b: i32) -> (r: i32)
    ensures
        r == signed_as(a as int, b as int),
{
    apply_sign64(a, b as i64)
}

fn apply_sign64(a: i32, b: i64) -> (r: i32)
    ensures
        r == signed_as(a as int, b as int),
{
    if b < 0 {
        if a == i32::MIN { a } else { -a }
    } else {
        a
    }
}

fn iclip(v: i32, lo: i32, hi: i32) -> (r: i32)
    requires
        lo <= hi,
    ensures
        r == iclamp(v as int, lo as int, hi as int),
{
    if v < lo { lo } else if v > hi { hi } else { v }
}

/// The `f`-th entry of the reciprocal table: `2^22 / (256 + f)`, rounded to the
/// nearest integer.
pub open spec fn reciprocal(f: int) -> int {
    (0x40_0000 + (256 + f) / 2) / (256 + f)
}

fn div_lut(f: u64) -> (r: i32)
    requires
        f <= 256,
    ensures
        r == reciprocal(f as int),
        8192 <= r <= 16384,
{
    let r: u64 = (0x40_0000 + (256 + f) / 2) / (256 + f);
    assert(8192 <= r <= 16384) by (nonlinear_arith)
        requires
            f <= 256,
            r == (0x40_0000 + (256 + f) / 2) / (256 + f),
    ;
    r as i32
}

/// The fraction of `d` above its leading bit, as a table index: the eight bits
/// below the leading one, rounded half up.
pub open spec fn divisor_index(d: nat) -> int {
    let l = floor_log2(d);
    let e = d - pow2(l);
    if l > 8 {
        (e + pow2((l - 9) as nat)) / pow2((l - 8) as nat) as int
    } else {
        e * pow2((8 - l) as nat)
    }
}

/// The reciprocal of `d` as a multiplier and the shift that goes with it.
pub open spec fn divisor(d: nat) -> (int, int) {
    ((floor_log2(d) + 14) as int, reciprocal(divisor_index(d)))
}

proof fn lemma_divisor_index(d: nat)
    requires
        d >= 1,
    ensures
        0 <= divisor_index(d) <= 256,
{
    let l = floor_log2(d);
    lemma_floor_log2(d);
    lemma_pow2_unfold(l + 1);
    let e = d - pow2(l);
    assert(0 <= e < pow2(l));
    if l > 8 {
        let a = pow2((l - 9) as nat) as int;
        lemma_pow2_pos((l - 9) as nat);
        lemma_pow2_unfold((l - 8) as nat);
        lemma_pow2_adds((l - 8) as nat, 8);
        lemma2_to64();
        assert(0 <= (e + a) / (2 * a) <= 256) by (nonlinear_arith)
            requires 0 <= e < (2 * a) * 256, a > 0,
        ;
    } else {
        let b = pow2((8 - l) as nat) as int;
        lemma_pow2_pos((8 - l) as nat);
        lemma_pow2_adds(l, (8 - l) as nat);
        lemma2_to64();
        assert(0 <= e * b <= 256) by (nonlinear_arith)
            requires 0 <= e < pow2(l), pow2(l) * b == 256, b > 0,
        ;
    }
}

/// The reciprocal of `d`: a shift, and a multiplier of at most fifteen bits. The
/// multiplier over two to the shift is `1 / d` to one part in 256, and for a power of
/// two it is exact.
pub fn resolve_divisor_64(d: u64) -> (r: (i32, i32))
    requires
        1 <= d,
    ensures
        (r.0 as int, r.1 as int) == divisor(d as nat),
        8192 <= r.1 <= 16384,
        14 <= r.0 <= 77,
        256 * iabs(d * r.1 - pow2(r.0 as nat)) < pow2(r.0 as nat),
        (exists|k: nat| d == pow2(k)) ==> r.1 == 16384,
{
    proof {
        law_reciprocal_error(d as nat);
    }
    let shift: i32 = u64log2(d);
    proof {
        lemma_floor_log2(d as nat);
        lemma_pow2_unfold((shift + 1) as nat);
        lemma_divisor_index(d as nat);
        lemma_one_shl_u64(shift as u64);
    }
    let e: u64 = d - (1u64 << (shift as u64));
    let f: u64 = if shift > 8 {
        proof {
            lemma_one_shl_u64((shift - 9) as u64);
            lemma_pow2_unfold((shift - 8) as nat);
            lemma_pow2_adds((shift - 8) as nat, 8);
            lemma2_to64();
            lemma_u64_shr_is_div((e + (1u64 << ((shift - 9) as u64))) as u64, (shift - 8) as u64);
        }
        (e + (1u64 << ((shift - 9) as u64))) >> ((shift - 8) as u64)
    } else {
        proof {
            lemma_one_shl_u64((8 - shift) as u64);
            assert(0 <= e * pow2((8 - shift) as nat) <= 256);
        }
        e * (1u64 << ((8 - shift) as u64))
    };
    (shift + 14, div_lut(f))
}

/// The reciprocal of a 32-bit `d`.
pub fn resolve_divisor_32(d: u32) -> (r: (i32, i32))
    requires
        1 <= d,
    ensures
        (r.0 as int, r.1 as int) == divisor(d as nat),
        8192 <= r.1 <= 16384,
        256 * iabs(d * r.1 - pow2(r.0 as nat)) < pow2(r.0 as nat),
        (exists|k: nat| d == pow2(k)) ==> r.1 == 16384,
{
    resolve_divisor_64(d as u64)
}

/// `v / 2^s`, rounded half up.
pub open spec fn rdiv(v: int, s: nat) -> int {
    (v + pow2(s) as int / 2) / pow2(s) as int
}

/// `v / 2^s` rounded half away from zero, in 32-bit arithmetic.
pub open spec fn signed_rdiv(v: int, s: nat) -> int {
    signed_as(trunc32(rdiv(iabs(v), s)), v)
}

/// `v / 2^s` rounded half away from zero, in 32-bit arithmetic.
fn signed_round_shift(v: i64, s: u32) -> (r: i32)
    requires
        s <= 62,
        iabs(v as int) + pow2(s as nat) / 2 <= i64::MAX,
    ensures
        r == signed_rdiv(v as int, s as nat),
{
    let m: i64 = abs_i64(v);
    proof {
        lemma_one_shl_i64(s);
        lemma_shr_i64(1i64 << s, 1);
        lemma2_to64();
        lemma2_to64_rest();
        if s < 62 {
            lemma_pow2_strictly_increases(s as nat, 62);
        }
    }
    let half: i64 = (1i64 << s) >> 1u32;
    proof {
        lemma_shr_i64((m + half) as i64, s);
    }
    apply_sign64(truncate_i32((m + half) >> s), v)
}

/// The off-diagonal entry of a solved model.
pub open spec fn ndiag(px: int, idet: int, shift: nat) -> int {
    iclamp(signed_rdiv(px * idet, shift), -0x1fff, 0x1fff)
}

/// The diagonal entry of a solved model.
pub open spec fn diag(px: int, idet: int, shift: nat) -> int {
    iclamp(signed_rdiv(px * idet, shift), 0xe001, 0x11fff)
}

fn get_mult_shift_ndiag(px: i64, idet: i32, shift: i32) -> (r: i32)
    requires
        0 <= shift <= 62,
        iabs(px * idet) + pow2(shift as nat) / 2 <= i64::MAX,
    ensures
        r == ndiag(px as int, idet as int, shift as nat),
{
    let v1: i64 = px * idet as i64;
    iclip(signed_round_shift(v1, shift as u32), -0x1fff, 0x1fff)
}

fn get_mult_shift_diag(px: i64, idet: i32, shift: i32) -> (r: i32)
    requires
        0 <= shift <= 62,
        iabs(px * idet) + pow2(shift as nat) / 2 <= i64::MAX,
    ensures
        r == diag(px as int, idet as int, shift as nat),
{
    let v1: i64 = px * idet as i64;
    iclip(signed_round_shift(v1, shift as u32), 0xe001, 0x11fff)
}

/// A shear coefficient: held to sixteen bits, then rounded to a multiple of 64,
/// halves away from zero.
pub open spec fn reduced(v: int) -> int {
    let cv = iclamp(v, -32768, 32767);
    let m = (iabs(cv) + 32) / 64;
    (if cv < 0 { -m } else { m }) * 64
}

fn iclip_wmp(v: i32) -> (r: i32)
    ensures
        r == reduced(v as int),
        -32768 <= r <= 32768,
        iabs(v as int) <= 32735 ==> -32768 < r < 32768,
{
    let cv: i32 = iclip(v, -32768, 32767);
    let m: i32 = abs_i32(cv) + 32;
    proof {
        lemma_shr_i32(m, 6);
        lemma2_to64();
    }
    let q: i32 = m >> 6u32;
    assert(q == m as int / 64);
    apply_sign(q, cv) * 64
}

/// The matrix lies in the range that a solved model is held to.
pub open spec fn matrix_ok(mat: Seq<i32>) -> bool {
    &&& mat.len() == 6
    &&& 0xe001 <= mat[2] <= 0x11fff
    &&& -0x1fff <= mat[3] <= 0x1fff
    &&& -0x1fff <= mat[4] <= 0x1fff
    &&& 0xe001 <= mat[5] <= 0x11fff
}

/// The shear decomposition of a matrix: alpha, beta, gamma and delta.
pub open spec fn shear_of(mat: Seq<i32>) -> (int, int, int, int) {
    let (shift, y) = divisor(mat[2] as nat);
    (
        reduced(mat[2] - 0x10000),
        reduced(mat[3] as int),
        reduced(signed_rdiv(mat[4] * 0x10000 * y, shift as nat)),
        reduced(mat[5] - signed_rdiv(mat[3] * mat[4] * y, shift as nat) - 0x10000),
    )
}

/// The shear is small enough for the eight-tap filters to reach.
pub open spec fn shear_fits(abcd: Seq<i16>) -> bool {
    &&& 4 * iabs(abcd[0] as int) + 7 * iabs(abcd[1] as int) < 0x10000
    &&& 4 * iabs(abcd[2] as int) + 4 * iabs(abcd[3] as int) < 0x10000
}

/// A rounded quotient of a bounded dividend is bounded, and needs no 32-bit
/// reduction.
proof fn lemma_signed_rdiv_small(v: int, s: nat, bound: int)
    requires
        0 <= bound < 0x4000_0000,
        iabs(v) <= bound * pow2(s),
    ensures
        iabs(signed_rdiv(v, s)) <= bound,
        signed_rdiv(v, s) == if v < 0 { -rdiv(iabs(v), s) } else { rdiv(iabs(v), s) },
{
    let p = pow2(s) as int;
    let m = iabs(v);
    lemma_pow2_pos(s);
    assert(0 <= (m + p / 2) / p <= bound) by (nonlinear_arith)
        requires 0 <= m <= bound * p, p > 0,
    ;
}

/// The linear part lies where its shear is sure to have sixteen bits, or does not
/// keep the horizontal direction at all.
pub open spec fn shear_in_range(mat: Seq<i32>) -> bool {
    mat[2] <= 0 || {
        &&& 0xe001 <= mat[2] <= 0x11fff
        &&& -0x1fff <= mat[3] <= 0x1fff
        &&& -0x1fff <= mat[4] <= 0x1fff
        &&& mat[5] <= 0x11fff
    }
}

/// Fills in the shear of `wm` and returns whether it rules the warp out: the
/// matrix does not keep the horizontal direction, or the shear is too strong.
fn get_shear_params(wm: &mut WarpedMotionParams) -> (r: bool)
    requires
        shear_in_range(old(wm).matrix@),
    ensures
        final(wm).matrix == old(wm).matrix,
        final(wm).valid == old(wm).valid,
        r == (old(wm).matrix@[2] <= 0 || !shear_fits(final(wm).abcd@)),
        old(wm).matrix@[2] <= 0 ==> *final(wm) == *old(wm),
        old(wm).matrix@[2] > 0 ==> {
            let a = final(wm).abcd@;
            (a[0] as int, a[1] as int, a[2] as int, a[3] as int) == shear_of(old(wm).matrix@)
        },
{
    let mat: [i32; 6] = wm.matrix;
    if mat[2] <= 0 {
        return true;
    }
    let alpha: i32 = iclip_wmp(mat[2] - 0x10000);
    let beta: i32 = iclip_wmp(mat[3]);
    let (shift, y): (i32, i32) = resolve_divisor_32(mat[2] as u32);
    let ghost d = mat@[2] as nat;
    proof {
        lemma2_to64();
        lemma_floor_log2_above(d, 15);
        lemma_floor_log2_below(d, 17);
        lemma_pow2_adds(29, 1);
        assert(pow2(29) == 0x2000_0000 && pow2(30) == 0x4000_0000);
        let m3 = mat@[3] as int;
        let m4 = mat@[4] as int;
        assert(iabs(m4 * 0x10000 * y) <= 16384 * 0x2000_0000) by (nonlinear_arith)
            requires -0x1fff <= m4 <= 0x1fff, 8192 <= y <= 16384,
        ;
        assert(iabs(m3 * m4) <= 0x1fff * 0x1fff) by (nonlinear_arith)
            requires -0x1fff <= m4 <= 0x1fff, -0x1fff <= m3 <= 0x1fff,
        ;
        assert(iabs(m3 * m4 * y) <= 0x1fff * 0x1fff * 16384) by (nonlinear_arith)
            requires iabs(m3 * m4) <= 0x1fff * 0x1fff, 8192 <= y <= 16384,
        ;
        lemma_signed_rdiv_small(m4 * 0x10000 * y, shift as nat, 16384);
        lemma_signed_rdiv_small(m3 * m4 * y, shift as nat, 2048);
    }
    let v1: i64 = mat[4] as i64 * 0x10000 * y as i64;
    let gamma: i32 = iclip_wmp(signed_round_shift(v1, shift as u32));
    let v2: i64 = mat[3] as i64 * mat[4] as i64 * y as i64;
    let d64: i64 = mat[5] as i64 - signed_round_shift(v2, shift as u32) as i64 - 0x10000;
    let delta: i32 = iclip_wmp(held(d64, -32768, 32767));
    wm.abcd = [alpha as i16, beta as i16, gamma as i16, delta as i16];
    4 * abs_i32(alpha) + 7 * abs_i32(beta) >= 0x10000 || 4 * abs_i32(gamma) + 4 * abs_i32(delta) >= 0x10000
}

/// A neighbour's position and where its motion takes it, both as `[x, y]` in
/// eighths of a sample from the block's corner.
pub type Sample = [[i32; 2]; 2];

/// The block whose model is solved: its size and position in units of four
/// samples, and its motion vector.
#[derive(Clone, Copy, Debug, PartialEq, Eq, Structural)]
pub struct WarpBlock {
    pub bw4: i32,
    pub bh4: i32,
    pub mv: MotionVector,
    pub bx4: i32,
    pub by4: i32,
}

impl WarpBlock {
    /// The block has a legal size and lies inside a frame of at most 65536
    /// samples in either direction.
    pub open spec fn wf(self) -> bool {
        &&& 1 <= self.bw4 <= 32
        &&& 1 <= self.bh4 <= 32
        &&& 0 <= self.bx4 <= 16384
        &&& 0 <= self.by4 <= 16384
    }

    /// The block's centre, in eighths of a sample.
    pub open spec fn centre(self) -> (int, int) {
        ((2 * self.bw4 - 1) * 8, (2 * self.bh4 - 1) * 8)
    }

    /// A neighbour near enough to the block, and with bounded motion, for the
    /// sums of the solve to stay within 64 bits.
    pub open spec fn reaches(self, p: Sample) -> bool {
        let (cx, cy) = self.centre();
        &&& iabs(p@[0]@[0] - cx) <= 1920
        &&& iabs(p@[0]@[1] - cy) <= 1920
        &&& iabs(p@[1]@[0] as int) <= 0x10_0000
        &&& iabs(p@[1]@[1] as int) <= 0x10_0000
    }
}

/// The coefficients of the normal equations.
pub struct AffineSums {
    pub a00: int,
    pub a01: int,
    pub a11: int,
    pub bx0: int,
    pub bx1: int,
    pub by0: int,
    pub by1: int,
}

/// No sample at all.
pub open spec fn zero_sums() -> AffineSums {
    AffineSums { a00: 0, a01: 0, a11: 0, bx0: 0, bx1: 0, by0: 0, by1: 0 }
}

/// Two sets of coefficients taken together.
pub open spec fn plus(s: AffineSums, t: AffineSums) -> AffineSums {
    AffineSums {
        a00: s.a00 + t.a00,
        a01: s.a01 + t.a01,
        a11: s.a11 + t.a11,
        bx0: s.bx0 + t.bx0,
        bx1: s.bx1 + t.bx1,
        by0: s.by0 + t.by0,
        by1: s.by1 + t.by1,
    }
}

/// A quarter of a product, rounded down.
#[verifier::opaque]
pub open spec fn quarter_of(x: int, y: int) -> int {
    (x * y) / 4
}

/// What one neighbour adds to the normal equations: its positions relative to
/// the block's centre before and after the motion, unless the motion differs
/// from the block's by 256 or more in either direction.
pub open spec fn terms(p: Sample, b: WarpBlock) -> AffineSums {
    let (cx, cy) = b.centre();
    terms_at(
        p@[0]@[0] - cx,
        p@[0]@[1] - cy,
        p@[1]@[0] - (cx + b.mv.col),
        p@[1]@[1] - (cy + b.mv.row),
    )
}

/// What a neighbour at `(sx, sy)` from the block's centre adds, which the motion
/// takes to `(dx, dy)` from where it takes the centre.
pub open spec fn terms_at(sx: int, sy: int, dx: int, dy: int) -> AffineSums {
    if iabs(sx - dx) < 256 && iabs(sy - dy) < 256 {
        AffineSums {
            a00: quarter_of(sx, sx) + sx * 2 + 8,
            a01: quarter_of(sx, sy) + sx + sy + 4,
            a11: quarter_of(sy, sy) + sy * 2 + 8,
            bx0: quarter_of(sx, dx) + sx + dx + 8,
            bx1: quarter_of(sy, dx) + sy + dx + 4,
            by0: quarter_of(sx, dy) + sx + dy + 4,
            by1: quarter_of(sy, dy) + sy + dy + 8,
        }
    } else {
        zero_sums()
    }
}

/// The coefficients of the first `n` neighbours.
pub open spec fn sums(pts: Seq<Sample>, n: int, b: WarpBlock) -> AffineSums
    decreases n,
{
    if n <= 0 { zero_sums() } else { plus(sums(pts, n - 1, b), terms(pts[n - 1], b)) }
}

/// The determinant of the normal equations.
pub open spec fn determinant(s: AffineSums) -> int {
    s.a00 * s.a11 - s.a01 * s.a01
}

/// The determinant's reciprocal as a multiplier and a shift, scaled so that the
/// quotients come out in units of 2^-16.
pub open spec fn inverse(det: int) -> (int, nat) {
    let (shift, y) = divisor(iabs(det) as nat);
    let idet = if det < 0 { -y } else { y };
    if shift < 16 {
        (idet * pow2((16 - shift) as nat), 0)
    } else {
        (idet, (shift - 16) as nat)
    }
}

/// `mat` is the model that the normal equations give for the block: the linear
/// part from the reciprocal of the determinant, the translation such that the
/// block's centre moves by the block's motion vector.
pub open spec fn solves(mat: Seq<i32>, s: AffineSums, b: WarpBlock) -> bool {
    let (idet, shift) = inverse(determinant(s));
    let isux = b.bx4 * 4 + 2 * b.bw4 - 1;
    let isuy = b.by4 * 4 + 2 * b.bh4 - 1;
    &&& mat.len() == 6
    &&& mat[2] == diag(s.a11 * s.bx0 - s.a01 * s.bx1, idet, shift)
    &&& mat[3] == ndiag(s.a00 * s.bx1 - s.a01 * s.bx0, idet, shift)
    &&& mat[4] == ndiag(s.a11 * s.by0 - s.a01 * s.by1, idet, shift)
    &&& mat[5] == diag(s.a00 * s.by1 - s.a01 * s.by0, idet, shift)
    &&& mat[0] == iclamp(b.mv.col * 0x2000 - (isux * (mat[2] - 0x10000) + isuy * mat[3]), -0x800000, 0x7fffff)
    &&& mat[1] == iclamp(b.mv.row * 0x2000 - (isux * mat[4] + isuy * (mat[5] - 0x10000)), -0x800000, 0x7fffff)
}

/// Coefficients of at most eight neighbours in reach.
spec fn sums_bounded(s: AffineSums, n: int) -> bool {
    &&& iabs(s.a00) <= 925448 * n
    &&& iabs(s.a01) <= 925448 * n
    &&& iabs(s.a11) <= 925448 * n
    &&& iabs(s.bx0) <= 1048104 * n
    &&& iabs(s.bx1) <= 1048104 * n
    &&& iabs(s.by0) <= 1048104 * n
    &&& iabs(s.by1) <= 1048104 * n
}

/// A quarter of a product, rounded down.
fn quarter_product(x: i32, y: i32) -> (r: i32)
    requires
        iabs(x as int) <= 1920,
        iabs(y as int) <= 2175,
    ensures
        r == quarter_of(x as int, y as int),
        iabs(r as int) <= 1044000,
        iabs(y as int) <= 1920 ==> iabs(r as int) <= 921600,
{
    proof {
        reveal(quarter_of);
        lemma_product(x as int, y as int, 1920, 2175);
        if iabs(y as int) <= 1920 {
            lemma_product(x as int, y as int, 1920, 1920);
        }
        lemma_shr_i32((x * y) as i32, 2);
        lemma2_to64();
    }
    (x * y) >> 2u32
}

/// The numerators of the quotients stay within 64 bits.
proof fn lemma_numerator(p: int, q: int, u: int, v: int, idet: int, shift: nat)
    requires
        iabs(p) <= 7403584,
        iabs(u) <= 7403584,
        iabs(q) <= 8384832,
        iabs(v) <= 8384832,
        shift <= 46,
        iabs(idet) <= 16384 || shift == 0 && iabs(idet) <= 65536,
    ensures
        iabs(p * q) <= 62077818142720,
        iabs(u * v) <= 62077818142720,
        iabs((p * q - u * v) * idet) + pow2(shift) / 2 <= i64::MAX,
{
    lemma_product(p, q, 7403584, 8384832);
    lemma_product(u, v, 7403584, 8384832);
    let n = p * q - u * v;
    assert(iabs(n) <= 124155636285440);
    lemma2_to64();
    lemma2_to64_rest();
    if iabs(idet) <= 16384 {
        lemma_product(n, idet, 124155636285440, 16384);
        if shift < 46 {
            lemma_pow2_strictly_increases(shift, 46);
        }
    } else {
        lemma_product(n, idet, 124155636285440, 65536);
    }
}

/// The coefficients as machine integers.
struct AffineAccumulator {
    a00: i64,
    a01: i64,
    a11: i64,
    bx0: i64,
    bx1: i64,
    by0: i64,
    by1: i64,
}

impl AffineAccumulator {
    spec fn view(&self) -> AffineSums {
        AffineSums {
            a00: self.a00 as int,
            a01: self.a01 as int,
            a11: self.a11 as int,
            bx0: self.bx0 as int,
            bx1: self.bx1 as int,
            by0: self.by0 as int,
            by1: self.by1 as int,
        }
    }
}

/// What one neighbour adds, given its position before and after the motion.
fn position_terms(sx: i32, sy: i32, dx: i32, dy: i32) -> (r: AffineAccumulator)
    requires
        iabs(sx as int) <= 1920,
        iabs(sy as int) <= 1920,
        iabs(dx as int) <= 0x20_0000,
        iabs(dy as int) <= 0x20_0000,
    ensures
        r.view() == terms_at(sx as int, sy as int, dx as int, dy as int),
        sums_bounded(r.view(), 1),
{
    if abs_i32(sx - dx) < 256 && abs_i32(sy - dy) < 256 {
        let a00: i32 = quarter_product(sx, sx) + sx * 2 + 8;
        let a01: i32 = quarter_product(sx, sy) + sx + sy + 4;
        let a11: i32 = quarter_product(sy, sy) + sy * 2 + 8;
        let bx0: i32 = quarter_product(sx, dx) + sx + dx + 8;
        let bx1: i32 = quarter_product(sy, dx) + sy + dx + 4;
        let by0: i32 = quarter_product(sx, dy) + sx + dy + 4;
        let by1: i32 = quarter_product(sy, dy) + sy + dy + 8;
        AffineAccumulator {
            a00: a00 as i64,
            a01: a01 as i64,
            a11: a11 as i64,
            bx0: bx0 as i64,
            bx1: bx1 as i64,
            by0: by0 as i64,
            by1: by1 as i64,
        }
    } else {
        AffineAccumulator { a00: 0, a01: 0, a11: 0, bx0: 0, bx1: 0, by0: 0, by1: 0 }
    }
}

/// What one neighbour adds to the normal equations.
fn sample_terms(p: Sample, b: WarpBlock) -> (r: AffineAccumulator)
    requires
        b.wf(),
        b.reaches(p),
    ensures
        r.view() == terms(p, b),
        sums_bounded(r.view(), 1),
{
    let sux: i32 = (2 * b.bw4 - 1) * 8;
    let suy: i32 = (2 * b.bh4 - 1) * 8;
    let sx: i32 = p[0][0] - sux;
    let sy: i32 = p[0][1] - suy;
    let dx: i32 = p[1][0] - (sux + b.mv.col as i32);
    let dy: i32 = p[1][1] - (suy + b.mv.row as i32);
    position_terms(sx, sy, dx, dy)
}

/// The coefficients of the first `np` neighbours.
fn accumulate(pts: &[Sample; 8], np: usize, b: WarpBlock) -> (r: AffineAccumulator)
    requires
        np <= 8,
        b.wf(),
        forall|k: int| 0 <= k < np ==> b.reaches(#[trigger] pts@[k]),
    ensures
        r.view() == sums(pts@, np as int, b),
        sums_bounded(r.view(), np as int),
{
    let mut s: AffineAccumulator = AffineAccumulator { a00: 0, a01: 0, a11: 0, bx0: 0, bx1: 0, by0: 0, by1: 0 };
    let mut k: usize = 0;
    while k < np
        invariant
            k <= np <= 8,
            b.wf(),
            forall|k: int| 0 <= k < np ==> b.reaches(#[trigger] pts@[k]),
            s.view() == sums(pts@, k as int, b),
            sums_bounded(s.view(), k as int),
        decreases np - k,
    {
        let t: AffineAccumulator = sample_terms(pts[k], b);
        s = AffineAccumulator {
            a00: s.a00 + t.a00,
            a01: s.a01 + t.a01,
            a11: s.a11 + t.a11,
            bx0: s.bx0 + t.bx0,
            bx1: s.bx1 + t.bx1,
            by0: s.by0 + t.by0,
            by1: s.by1 + t.by1,
        };
        k = k + 1;
    }
    s
}

/// The determinant's reciprocal as a multiplier and a shift.
fn resolve_inverse(det: i64) -> (r: (i32, i32))
    requires
        det != 0,
        iabs(det as int) < 0x8000_0000_0000,
    ensures
        (r.0 as int, r.1 as nat) == inverse(det as int),
        0 <= r.1 <= 44,
        iabs(r.0 as int) <= 16384 || r.1 == 0 && iabs(r.0 as int) <= 65536,
{
    let (shift0, y): (i32, i32) = resolve_divisor_64(abs_i64(det) as u64);
    proof {
        lemma2_to64();
        lemma2_to64_rest();
        lemma_floor_log2_below(iabs(det as int) as nat, 47);
    }
    let idet: i32 = if det < 0 { -y } else { y };
    if shift0 == 14 {
        (idet * 4, 0)
    } else if shift0 == 15 {
        (idet * 2, 0)
    } else {
        (idet, shift0 - 16)
    }
}

/// The translation that takes the block's centre along its motion vector, held
/// to 24 bits.
fn translation(mv: i16, x: i32, mx: i32, y: i32, my: i32) -> (r: i32)
    requires
        iabs(x as int) <= 65599,
        iabs(y as int) <= 65599,
        iabs(mx as int) <= 8191,
        iabs(my as int) <= 8191,
    ensures
        r == iclamp(mv * 0x2000 - (x * mx + y * my), -0x800000, 0x7fffff),
{
    proof {
        lemma_product(x as int, mx as int, 65599, 8191);
        lemma_product(y as int, my as int, 65599, 8191);
    }
    iclip(mv as i32 * 0x2000 - (x * mx + y * my), -0x800000, 0x7fffff)
}

/// Solves the normal equations of the first `np` neighbours into the matrix of
/// `wm`; returns whether they are degenerate, in which case `wm` is unchanged.
fn find_affine_int(pts: &[Sample; 8], np: usize, b: WarpBlock, wm: &mut WarpedMotionParams) -> (r: bool)
    requires
        np <= 8,
        b.wf(),
        forall|k: int| 0 <= k < np ==> b.reaches(#[trigger] pts@[k]),
    ensures
        r == (determinant(sums(pts@, np as int, b)) == 0),
        r ==> *final(wm) == *old(wm),
        !r ==> solves(final(wm).matrix@, sums(pts@, np as int, b), b) && matrix_ok(final(wm).matrix@),
        final(wm).abcd == old(wm).abcd,
        final(wm).valid == old(wm).valid,
{
    let s: AffineAccumulator = accumulate(pts, np, b);
    let ghost g = s.view();
    proof {
        lemma_product(g.a00, g.a11, 7403584, 7403584);
        lemma_product(g.a01, g.a01, 7403584, 7403584);
    }
    let det: i64 = s.a00 * s.a11 - s.a01 * s.a01;
    if det == 0 {
        return true;
    }
    let (idet, shift): (i32, i32) = resolve_inverse(det);
    proof {
        lemma_numerator(g.a11, g.bx0, g.a01, g.bx1, idet as int, shift as nat);
        lemma_numerator(g.a00, g.bx1, g.a01, g.bx0, idet as int, shift as nat);
        lemma_numerator(g.a11, g.by0, g.a01, g.by1, idet as int, shift as nat);
        lemma_numerator(g.a00, g.by1, g.a01, g.by0, idet as int, shift as nat);
    }
    let m2: i32 = get_mult_shift_diag(s.a11 * s.bx0 - s.a01 * s.bx1, idet, shift);
    let m3: i32 = get_mult_shift_ndiag(s.a00 * s.bx1 - s.a01 * s.bx0, idet, shift);
    let m4: i32 = get_mult_shift_ndiag(s.a11 * s.by0 - s.a01 * s.by1, idet, shift);
    let m5: i32 = get_mult_shift_diag(s.a00 * s.by1 - s.a01 * s.by0, idet, shift);
    let isux: i32 = b.bx4 * 4 + (2 * b.bw4 - 1);
    let isuy: i32 = b.by4 * 4 + (2 * b.bh4 - 1);
    let m0: i32 = translation(b.mv.col, isux, m2 - 0x10000, isuy, m3);
    let m1: i32 = translation(b.mv.row, isux, m4, isuy, m5 - 0x10000);
    wm.matrix = [m0, m1, m2, m3, m4, m5];
    false
}

/// How far a neighbour's motion is from the block's, summed over both directions.
pub open spec fn motion_gap(p: Sample, mv: MotionVector) -> int {
    iabs(p@[1]@[0] - p@[0]@[0] - mv.col) + iabs(p@[1]@[1] - p@[0]@[1] - mv.row)
}

/// The gap beyond which a neighbour is left out of the solve.
pub open spec fn gap_threshold(b: WarpBlock) -> int {
    4 * iclamp(imax(b.bw4 as int, b.bh4 as int), 4, 28)
}

/// The neighbour agrees with the block's motion well enough to be used.
pub open spec fn agrees(p: Sample, b: WarpBlock) -> bool {
    motion_gap(p, b.mv) <= gap_threshold(b)
}

/// The coefficients of those of the first `n` neighbours that agree.
pub open spec fn agreeing_sums(pts: Seq<Sample>, n: int, b: WarpBlock) -> AffineSums
    decreases n,
{
    if n <= 0 {
        zero_sums()
    } else if agrees(pts[n - 1], b) {
        plus(agreeing_sums(pts, n - 1, b), terms(pts[n - 1], b))
    } else {
        agreeing_sums(pts, n - 1, b)
    }
}

/// How many of the first `n` neighbours agree.
pub open spec fn agreeing_count(pts: Seq<Sample>, n: int, b: WarpBlock) -> int
    decreases n,
{
    if n <= 0 {
        0
    } else {
        agreeing_count(pts, n - 1, b) + if agrees(pts[n - 1], b) { 1int } else { 0 }
    }
}

/// The normal equations of a block: those of the agreeing neighbours among the
/// first eight; if none agrees, those of the first neighbour alone, and without
/// any neighbour those of a point that stays at the block's corner.
pub open spec fn block_sums(samples: Seq<Sample>, b: WarpBlock) -> AffineSums {
    let n = imin(samples.len() as int, 8);
    if agreeing_count(samples, n, b) > 0 {
        agreeing_sums(samples, n, b)
    } else if n > 0 {
        terms(samples[0], b)
    } else {
        terms([[0, 0], [0, 0]], b)
    }
}

/// The coefficients of those of the first `n` entries that are not marked.
spec fn live_sums(pts: Seq<Sample>, mvd: Seq<i32>, n: int, b: WarpBlock) -> AffineSums
    decreases n,
{
    if n <= 0 {
        zero_sums()
    } else if mvd[n - 1] != -1 {
        plus(live_sums(pts, mvd, n - 1, b), terms(pts[n - 1], b))
    } else {
        live_sums(pts, mvd, n - 1, b)
    }
}

/// How many of the first `n` entries are not marked.
spec fn live_count(mvd: Seq<i32>, n: int) -> int
    decreases n,
{
    if n <= 0 { 0 } else { live_count(mvd, n - 1) + if mvd[n - 1] != -1 { 1int } else { 0 } }
}

proof fn lemma_live_count(mvd: Seq<i32>, n: int)
    requires
        0 <= n,
    ensures
        0 <= live_count(mvd, n) <= n,
        live_count(mvd, n) == n <==> (forall|k: int| 0 <= k < n ==> mvd[k] != -1),
    decreases n,
{
    if n > 0 {
        lemma_live_count(mvd, n - 1);
        if live_count(mvd, n) == n {
            assert forall|k: int| 0 <= k < n implies mvd[k] != -1 by {
                if k < n - 1 {
                    assert(live_count(mvd, n - 1) == n - 1);
                }
            }
        }
    }
}

/// Filling a marked entry adds its coefficients.
proof fn lemma_fill(pts: Seq<Sample>, mvd: Seq<i32>, n: int, i: int, p: Sample, v: i32, b: WarpBlock)
    requires
        0 <= i < pts.len(),
        i < mvd.len(),
        n <= pts.len(),
        n <= mvd.len(),
        mvd[i] == -1,
        v != -1,
    ensures
        live_sums(pts.update(i, p), mvd.update(i, v), n, b) == if i < n {
            plus(live_sums(pts, mvd, n, b), terms(p, b))
        } else {
            live_sums(pts, mvd, n, b)
        },
        live_count(mvd.update(i, v), n) == live_count(mvd, n) + if i < n { 1int } else { 0 },
    decreases n,
{
    if n > 0 {
        lemma_fill(pts, mvd, n - 1, i, p, v, b);
    }
}

/// Where no entry is marked, all coefficients count.
proof fn lemma_all_live(pts: Seq<Sample>, mvd: Seq<i32>, n: int, b: WarpBlock)
    requires
        forall|k: int| 0 <= k < n ==> mvd[k] != -1,
    ensures
        live_sums(pts, mvd, n, b) == sums(pts, n, b),
    decreases n,
{
    if n > 0 {
        lemma_all_live(pts, mvd, n - 1, b);
    }
}

/// Marks that follow agreement select the agreeing entries.
proof fn lemma_marks(pts: Seq<Sample>, samples: Seq<Sample>, mvd: Seq<i32>, n: int, b: WarpBlock)
    requires
        forall|k: int| 0 <= k < n ==> #[trigger] pts[k] == samples[k] && (mvd[k] != -1) == agrees(samples[k], b),
    ensures
        live_sums(pts, mvd, n, b) == agreeing_sums(samples, n, b),
        live_count(mvd, n) == agreeing_count(samples, n, b),
    decreases n,
{
    if n > 0 {
        lemma_marks(pts, samples, mvd, n - 1, b);
        assert(pts[n - 1] == samples[n - 1]);
    }
}

/// Moves the unmarked entries to the front: `np0` entries, `ret` of them
/// unmarked and not all. Each marked entry from the front is overwritten by the
/// last unmarked one.
fn compact(pts: &mut [Sample; 8], mvd: &mut [i32; 8], np0: usize, ret: usize, Ghost(b): Ghost<WarpBlock>)
    requires
        0 < ret < np0 <= 8,
        live_count(old(mvd)@, np0 as int) == ret,
        forall|k: int| 0 <= k < np0 ==> b.reaches(#[trigger] old(pts)@[k]),
    ensures
        sums(final(pts)@, ret as int, b) == live_sums(old(pts)@, old(mvd)@, np0 as int, b),
        forall|k: int| 0 <= k < np0 ==> b.reaches(#[trigger] final(pts)@[k]),
{
    let ghost total = live_sums(pts@, mvd@, np0 as int, b);
    let mut i: usize = 0;
    let mut j: usize = np0 - 1;
    let mut t: usize = 0;
    let mut met: bool = false;
    while t < np0 - ret && !met
        invariant
            0 < ret < np0 <= 8,
            i <= np0,
            j < np0,
            t <= np0 - ret,
            j + 1 <= np0 - t,
            forall|k: int| 0 <= k < i ==> mvd@[k] != -1,
            live_sums(pts@, mvd@, j + 1, b) == total,
            live_count(mvd@, j + 1) == ret,
            live_count(mvd@, np0 as int) == ret + t || met,
            met ==> j + 1 == ret,
            forall|k: int| 0 <= k < np0 ==> b.reaches(#[trigger] pts@[k]),
        decreases np0 - ret - t + if met { 0int } else { 1 },
    {
        proof {
            lemma_live_count(mvd@, np0 as int);
        }
        while mvd[i] != -1
            invariant
                i < np0 <= 8,
                forall|k: int| 0 <= k < i ==> mvd@[k] != -1,
                live_count(mvd@, np0 as int) < np0,
            decreases np0 - i,
        {
            proof {
                lemma_live_count(mvd@, np0 as int);
            }
            i = i + 1;
        }
        while mvd[j] == -1
            invariant
                j < np0 <= 8,
                0 < ret,
                j + 1 <= np0 - t,
                live_sums(pts@, mvd@, j + 1, b) == total,
                live_count(mvd@, j + 1) == ret,
            decreases j,
        {
            proof {
                lemma_live_count(mvd@, 0);
            }
            j = j - 1;
        }
        if i > j {
            proof {
                lemma_live_count(mvd@, j + 1);
            }
            met = true;
        } else {
            proof {
                lemma_fill(pts@, mvd@, j as int, i as int, pts@[j as int], mvd@[j as int], b);
                lemma_fill(pts@, mvd@, np0 as int, i as int, pts@[j as int], mvd@[j as int], b);
            }
            let moved: i32 = mvd[j];
            let p: Sample = pts[j];
            mvd[i] = moved;
            pts[i] = p;
            i = i + 1;
            j = j - 1;
            t = t + 1;
        }
    }
    proof {
        lemma_live_count(mvd@, j + 1);
        assert(j + 1 == ret);
        lemma_all_live(pts@, mvd@, ret as int, b);
    }
}

/// `r` is the warp model that the normal equations give for the block: the identity,
/// not to be applied, where they are degenerate; otherwise their solution with its
/// shear, valid if the shear fits.
pub open spec fn models(r: WarpedMotionParams, s: AffineSums, b: WarpBlock) -> bool {
    let a = r.abcd@;
    &&& determinant(s) == 0 ==> {
        &&& r.matrix@ =~= seq![0i32, 0, 0x10000, 0, 0, 0x10000]
        &&& a =~= seq![0i16, 0, 0, 0]
        &&& !r.valid
    }
    &&& determinant(s) != 0 ==> {
        &&& solves(r.matrix@, s, b)
        &&& matrix_ok(r.matrix@)
        &&& (a[0] as int, a[1] as int, a[2] as int, a[3] as int) == shear_of(r.matrix@)
        &&& r.valid == shear_fits(a)
    }
}

/// Solves the warp model of a block from its neighbours' motion: neighbours whose
/// motion differs too much are left out, the normal equations of the rest are
/// solved, and the result is valid if they are regular and its shear fits.
pub fn solve_warp(samples: &[Sample], bw4: i32, bh4: i32, mv: MotionVector, bx4: i32, by4: i32) -> (r: WarpedMotionParams)
    requires
        (WarpBlock { bw4, bh4, mv, bx4, by4 }).wf(),
        forall|k: int| 0 <= k < samples.len() && k < 8 ==> (WarpBlock { bw4, bh4, mv, bx4, by4 }).reaches(#[trigger] samples@[k]),
    ensures
        ({
            let b = WarpBlock { bw4, bh4, mv, bx4, by4 };
            models(r, block_sums(samples@, b), b)
        }),
{
    let b: WarpBlock = WarpBlock { bw4, bh4, mv, bx4, by4 };
    let mut pts: [Sample; 8] = [[[0, 0], [0, 0]]; 8];
    let np0: usize = if samples.len() < 8 { samples.len() } else { 8 };
    let mut mvd: [i32; 8] = [0; 8];
    let mut ret: usize = 0;
    let wide: i32 = if bw4 > bh4 { bw4 } else { bh4 };
    let thresh: i32 = 4 * iclip(wide, 4, 28);
    let mut i: usize = 0;
    while i < np0
        invariant
            i <= np0,
            np0 == imin(samples.len() as int, 8),
            b == (WarpBlock { bw4, bh4, mv, bx4, by4 }),
            b.wf(),
            thresh == gap_threshold(b),
            forall|k: int| 0 <= k < samples.len() && k < 8 ==> b.reaches(#[trigger] samples@[k]),
            forall|k: int| 0 <= k < i ==> #[trigger] pts@[k] == samples@[k] && (mvd@[k] != -1) == agrees(samples@[k], b),
            forall|k: int| i <= k < 8 ==> #[trigger] pts@[k] == [[0i32, 0], [0, 0]],
            ret == live_count(mvd@, i as int),
            ret <= i,
        decreases np0 - i,
    {
        let p: Sample = samples[i];
        assert(b.reaches(samples@[i as int]));
        let ghost pts0 = pts@;
        pts[i] = p;
        let gap: i32 = abs_i32(p[1][0] - p[0][0] - mv.col as i32) + abs_i32(p[1][1] - p[0][1] - mv.row as i32);
        assert(gap == motion_gap(samples@[i as int], mv));
        let ghost before = mvd@;
        if gap > thresh {
            mvd[i] = -1;
        } else {
            mvd[i] = gap;
            ret = ret + 1;
        }
        proof {
            lemma_prefix_count(before, mvd@, i as int);
            assert forall|k: int| 0 <= k < i + 1 implies #[trigger] pts@[k] == samples@[k] && (mvd@[k] != -1) == agrees(samples@[k], b) by {
                if k < i {
                    assert(pts0[k] == samples@[k]);
                    assert(mvd@[k] == before[k]);
                }
            }
        }
        i = i + 1;
    }
    proof {
        lemma_marks(pts@, samples@, mvd@, np0 as int, b);
        assert forall|k: int| 0 <= k < 8 implies b.reaches(#[trigger] pts@[k]) by {
            if k < np0 {
                assert(b.reaches(samples@[k]));
            }
        }
    }
    if ret == 0 {
        ret = 1;
        proof {
            assert(sums(pts@, 1, b) == plus(sums(pts@, 0, b), terms(pts@[0], b)));
        }
    } else if ret < np0 {
        compact(&mut pts, &mut mvd, np0, ret, Ghost(b));
    } else {
        proof {
            lemma_live_count(mvd@, np0 as int);
            lemma_all_live(pts@, mvd@, np0 as int, b);
        }
    }
    assert(sums(pts@, ret as int, b) == block_sums(samples@, b));
    let mut wm: WarpedMotionParams = WarpedMotionParams::default();
    let degenerate: bool = if find_affine_int(&pts, ret, b, &mut wm) { true } else { get_shear_params(&mut wm) };
    wm.valid = !degenerate;
    wm
}

proof fn lemma_prefix_count(m: Seq<i32>, n: Seq<i32>, i: int)
    requires
        0 <= i,
        forall|k: int| 0 <= k < i ==> m[k] == n[k],
    ensures
        live_count(m, i) == live_count(n, i),
    decreases i,
{
    if i > 0 {
        lemma_prefix_count(m, n, i - 1);
    }
}

/// The filters of the warp, by 64ths of a sample from -1 to 2.
pub type WarpFilters = [[i8; 8]; 193];

/// What a sample of the first pass is divided by.
pub open spec fn first_pass_scale(bit_depth: int) -> int {
    if bit_depth == 8 { 8 } else { 32 }
}

/// What a sample of the second pass is divided by.
pub open spec fn second_pass_scale(bit_depth: int) -> int {
    if bit_depth == 8 { 2048 } else { 512 }
}

/// `1 << ss`, for a subsampling shift of zero or one.
pub open spec fn step(ss: int) -> int {
    if ss == 1 { 2 } else { 1 }
}

/// Where the model takes the centre of the 8x8 block at `(bx, by)` of the
/// plane's block: the coordinates in the reference plane, in units of 2^-16.
pub open spec fn warp_origin(mat: Seq<i32>, bx_luma: int, by_luma: int, bx: int, by: int, ss_hor: int, ss_ver: int) -> (int, int) {
    let src_x = bx_luma + (bx + 4) * step(ss_hor);
    let src_y = by_luma + (by + 4) * step(ss_ver);
    (
        (mat[2] * src_x + (mat[3] * src_y + mat[0])) / step(ss_hor),
        (mat[4] * src_x + (mat[5] * src_y + mat[1])) / step(ss_ver),
    )
}

/// The filter position at the corner of an 8x8 block: the fraction of the
/// origin, moved back by the shear over the block, rounded down to 64ths of a
/// sample.
pub open spec fn corner(mv: int, across: int, down: int) -> int {
    ((mv % 0x10000 - across - down) / 64) * 64
}

/// The filter that serves a position.
pub open spec fn filter_index(t: int) -> int {
    64 + (t + 512) / 1024
}

/// One 8x8 block of a warped prediction: the integer position in the reference
/// and the filter positions at the corner.
pub struct WarpTile {
    pub dx: int,
    pub dy: int,
    pub mx: int,
    pub my: int,
}

/// The 8x8 block at `(bx, by)` of the plane's block.
pub open spec fn warp_tile(wm: &WarpedMotionParams, bx_luma: int, by_luma: int, bx: int, by: int, ss_hor: int, ss_ver: int) -> WarpTile {
    let (mvx, mvy) = warp_origin(wm.matrix@, bx_luma, by_luma, bx, by, ss_hor, ss_ver);
    WarpTile {
        dx: mvx / 0x10000 - 4,
        dy: mvy / 0x10000 - 4,
        mx: corner(mvx, wm.abcd@[0] * 4, wm.abcd@[1] * 7),
        my: corner(mvy, wm.abcd@[2] * 4, wm.abcd@[3] * 4),
    }
}

/// A sample of the horizontal pass, at column `x` of 8 and row `y` of 15.
pub open spec fn warp_mid<T: Pixel>(p: &Plane<T>, f: &WarpFilters, abcd: Seq<i16>, t: WarpTile, bit_depth: int, x: int, y: int) -> int {
    let row = f@[filter_index(t.mx + y * abcd[1] + x * abcd[0])]@;
    rounded(tap_sum(row, |i: int| p.clamped(t.dx + x - 3 + i, t.dy + y - 3), 8), first_pass_scale(bit_depth))
}

/// A sample of an 8x8 block, at column `x` and row `y` of 8.
pub open spec fn warp_tile_sample<T: Pixel>(p: &Plane<T>, f: &WarpFilters, abcd: Seq<i16>, t: WarpTile, bit_depth: int, x: int, y: int) -> int {
    let col = f@[filter_index(t.my + y * abcd[3] + x * abcd[2])]@;
    let sum = tap_sum(col, |i: int| warp_mid(p, f, abcd, t, bit_depth, x, y + i), 8);
    iclamp(rounded(sum, second_pass_scale(bit_depth)), 0, pow2(bit_depth as nat) - 1)
}

/// The warped prediction of the sample at `(x, y)` of a block.
pub open spec fn warp_sample<T: Pixel>(
    p: &Plane<T>,
    f: &WarpFilters,
    wm: &WarpedMotionParams,
    bx_luma: int,
    by_luma: int,
    ss_hor: int,
    ss_ver: int,
    bit_depth: int,
    x: int,
    y: int,
) -> int {
    let t = warp_tile(wm, bx_luma, by_luma, x - x % 8, y - y % 8, ss_hor, ss_ver);
    warp_tile_sample(p, f, wm.abcd@, t, bit_depth, x % 8, y % 8)
}

/// The parameters that a warped prediction needs to stay in range: a bit depth
/// the samples respect, a model in range, and a shear the filters reach.
pub open spec fn warp_ok<T: Pixel>(p: &Plane<T>, wm: &WarpedMotionParams, bit_depth: int) -> bool {
    &&& p.wf()
    &&& bit_depth == 8 || bit_depth == 10 || bit_depth == 12
    &&& pow2(bit_depth as nat) - 1 <= T::max_val()
    &&& p.visible_at_most(pow2(bit_depth as nat) - 1)
    &&& matrix_ok(wm.matrix@)
    &&& -0x800000 <= wm.matrix@[0] <= 0x7fffff
    &&& -0x800000 <= wm.matrix@[1] <= 0x7fffff
    &&& shear_fits(wm.abcd@)
}

/// A located 8x8 block.
struct TilePosition {
    dx: i32,
    dy: i32,
    mx: i32,
    my: i32,
}

impl TilePosition {
    spec fn view(&self) -> WarpTile {
        WarpTile { dx: self.dx as int, dy: self.dy as int, mx: self.mx as int, my: self.my as int }
    }

    /// The filter positions stay where the filters reach, and the integer
    /// position stays near the frame.
    spec fn fits(&self, abcd: Seq<i16>) -> bool {
        &&& forall|x: int, y: int| 0 <= x < 8 && 0 <= y < 15 ==> 0 <= #[trigger] filter_index(self.mx + y * abcd[1] + x * abcd[0]) < 193
        &&& forall|x: int, y: int| 0 <= x < 8 && 0 <= y < 8 ==> 0 <= #[trigger] filter_index(self.my + y * abcd[3] + x * abcd[2]) < 193
        &&& iabs(self.dx as int) <= 0x20_0000
        &&& iabs(self.dy as int) <= 0x20_0000
        &&& iabs(self.mx as int) <= 0x40_0000
        &&& iabs(self.my as int) <= 0x40_0000
    }
}

/// A filter position and the whole samples of one coordinate of an origin.
fn split_origin(mv: i64, across: i32, down: i32) -> (r: (i32, i32))
    requires
        iabs(mv as int) <= 0x10_0000_0000,
        iabs(across as int) <= 0x10_0000,
        iabs(down as int) <= 0x10_0000,
    ensures
        r.0 == mv as int / 0x10000 - 4,
        r.1 == corner(mv as int, across as int, down as int),
        iabs(r.0 as int) <= 0x20_0000,
        iabs(r.1 as int) <= 0x40_0000,
{
    let whole: i64 = mv >> 16u32;
    let frac: i64 = mv & 0xffff;
    proof {
        lemma_shr_i64(mv, 16);
        lemma2_to64();
        assert(mv == (mv >> 16u32) * 0x10000 + (mv & 0xffff) && 0 <= (mv & 0xffff) < 0x10000) by (bit_vector);
    }
    let v: i32 = frac as i32 - across - down;
    proof {
        lemma_shr_i32(v, 6);
    }
    (whole as i32 - 4, (v >> 6u32) * 64)
}

proof fn lemma_filter_reach(mv: int, across: int, down: int, x: int, y: int, xs: int, ys: int)
    requires
        iabs(x * across - xs * across + y * down - ys * down) < 0x10000,
    ensures
        0 <= filter_index(corner(mv, xs * across, ys * down) + y * down + x * across) < 193,
{
}

/// Where the model takes one 8x8 block.
fn locate(wm: &WarpedMotionParams, bx_luma: i32, by_luma: i32, bx: usize, by: usize, ss_hor: i32, ss_ver: i32) -> (r: TilePosition)
    requires
        matrix_ok(wm.matrix@),
        -0x800000 <= wm.matrix@[0] <= 0x7fffff,
        -0x800000 <= wm.matrix@[1] <= 0x7fffff,
        shear_fits(wm.abcd@),
        0 <= bx_luma <= 0x10000,
        0 <= by_luma <= 0x10000,
        bx <= 128,
        by <= 128,
        0 <= ss_hor <= 1,
        0 <= ss_ver <= 1,
    ensures
        r.view() == warp_tile(wm, bx_luma as int, by_luma as int, bx as int, by as int, ss_hor as int, ss_ver as int),
        r.fits(wm.abcd@),
{
    let sh: i32 = if ss_hor == 1 { 2 } else { 1 };
    let sv: i32 = if ss_ver == 1 { 2 } else { 1 };
    let src_x: i64 = (bx_luma + (bx as i32 + 4) * sh) as i64;
    let src_y: i64 = (by_luma + (by as i32 + 4) * sv) as i64;
    let ghost mat = wm.matrix@;
    proof {
        lemma_product(mat[2] as int, src_x as int, 0x11fff, 65800);
        lemma_product(mat[3] as int, src_y as int, 0x1fff, 65800);
        lemma_product(mat[4] as int, src_x as int, 0x1fff, 65800);
        lemma_product(mat[5] as int, src_y as int, 0x11fff, 65800);
        lemma2_to64();
    }
    let wx: i64 = wm.matrix[2] as i64 * src_x + (wm.matrix[3] as i64 * src_y + wm.matrix[0] as i64);
    let wy: i64 = wm.matrix[4] as i64 * src_x + (wm.matrix[5] as i64 * src_y + wm.matrix[1] as i64);
    proof {
        lemma_shr_i64(wx, ss_hor as u32);
        lemma_shr_i64(wy, ss_ver as u32);
    }
    let mvx: i64 = wx >> (ss_hor as u32);
    let mvy: i64 = wy >> (ss_ver as u32);
    let (alpha, beta): (i32, i32) = (wm.alpha() as i32, wm.beta() as i32);
    let (gamma, delta): (i32, i32) = (wm.gamma() as i32, wm.delta() as i32);
    let (dx, mx): (i32, i32) = split_origin(mvx, alpha * 4, beta * 7);
    let (dy, my): (i32, i32) = split_origin(mvy, gamma * 4, delta * 4);
    let r: TilePosition = TilePosition { dx, dy, mx, my };
    proof {
        let a = wm.abcd@;
        assert forall|x: int, y: int| 0 <= x < 8 && 0 <= y < 15 implies 0 <= #[trigger] filter_index(r.mx + y * a[1] + x * a[0]) < 193 by {
            lemma_product(x - 4, a[0] as int, 4, iabs(a[0] as int));
            lemma_product(y - 7, a[1] as int, 7, iabs(a[1] as int));
            assert((x - 4) * a[0] == x * a[0] - 4 * a[0] && (y - 7) * a[1] == y * a[1] - 7 * a[1]) by (nonlinear_arith);
            lemma_filter_reach(mvx as int, a[0] as int, a[1] as int, x, y, 4, 7);
        }
        assert forall|x: int, y: int| 0 <= x < 8 && 0 <= y < 8 implies 0 <= #[trigger] filter_index(r.my + y * a[3] + x * a[2]) < 193 by {
            lemma_product(x - 4, a[2] as int, 4, iabs(a[2] as int));
            lemma_product(y - 4, a[3] as int, 4, iabs(a[3] as int));
            assert((x - 4) * a[2] == x * a[2] - 4 * a[2] && (y - 4) * a[3] == y * a[3] - 4 * a[3]) by (nonlinear_arith);
            lemma_filter_reach(mvy as int, a[2] as int, a[3] as int, x, y, 4, 4);
        }
    }
    r
}

/// The filter of a position that the filters reach.
fn filter_at(f: &WarpFilters, corner: i32, along: i32, n: i32, across: i32, m: i32) -> (r: [i8; 8])
    requires
        iabs(corner as int) <= 0x40_0000,
        iabs(along as int) <= 0x8000,
        iabs(across as int) <= 0x8000,
        0 <= n < 15,
        0 <= m < 8,
        0 <= filter_index(corner + n * along + m * across) < 193,
    ensures
        r == f@[filter_index(corner + n * along + m * across)],
{
    proof {
        lemma_product(n as int, along as int, 15, 0x8000);
        lemma_product(m as int, across as int, 8, 0x8000);
    }
    let t: i32 = corner + n * along + m * across;
    proof {
        lemma_shr_i32((t + 512) as i32, 10);
        lemma2_to64();
    }
    f[(64 + ((t + 512) >> 10u32)) as usize]
}

/// The horizontal pass over the fifteen rows that an 8x8 block needs.
fn horizontal_pass<T: Pixel>(p: &Plane<T>, f: &WarpFilters, wm: &WarpedMotionParams, t: &TilePosition, bit_depth: usize) -> (r: [i32; 120])
    requires
        warp_ok(p, wm, bit_depth as int),
        t.fits(wm.abcd@),
    ensures
        forall|x: int, y: int| 0 <= x < 8 && 0 <= y < 15 ==> {
            &&& #[trigger] r@[y * 8 + x] == warp_mid(p, f, wm.abcd@, t.view(), bit_depth as int, x, y)
            &&& iabs(r@[y * 8 + x] as int) <= 0x40000
        },
{
    let mut mid: [i32; 120] = [0; 120];
    let shift: u32 = if bit_depth == 8 { 3 } else { 5 };
    let ghost d = first_pass_scale(bit_depth as int);
    let ghost pmax = pow2(bit_depth as nat) - 1;
    proof {
        lemma2_to64();
    }
    let mut y: usize = 0;
    while y < 15
        invariant
            y <= 15,
            warp_ok(p, wm, bit_depth as int),
            t.fits(wm.abcd@),
            shift == 3 || shift == 5,
            d == pow2(shift as nat),
            d == 8 || d == 32,
            d == first_pass_scale(bit_depth as int),
            pmax == pow2(bit_depth as nat) - 1,
            pmax == 255 || d == 32 && (pmax == 1023 || pmax == 4095),
            forall|i: int, j: int| 0 <= i < 8 && 0 <= j < y ==> {
                &&& #[trigger] mid@[j * 8 + i] == warp_mid(p, f, wm.abcd@, t.view(), bit_depth as int, i, j)
                &&& iabs(mid@[j * 8 + i] as int) <= 0x40000
            },
        decreases 15 - y,
    {
        let mut x: usize = 0;
        while x < 8
            invariant
                x <= 8,
                y < 15,
                warp_ok(p, wm, bit_depth as int),
                t.fits(wm.abcd@),
                shift == 3 || shift == 5,
                d == pow2(shift as nat),
                d == 8 || d == 32,
                d == first_pass_scale(bit_depth as int),
                pmax == pow2(bit_depth as nat) - 1,
                pmax == 255 || d == 32 && (pmax == 1023 || pmax == 4095),
                forall|i: int, j: int| 0 <= i < 8 && 0 <= j && (j < y || j == y && i < x) ==> {
                    &&& #[trigger] mid@[j * 8 + i] == warp_mid(p, f, wm.abcd@, t.view(), bit_depth as int, i, j)
                    &&& iabs(mid@[j * 8 + i] as int) <= 0x40000
                },
            decreases 8 - x,
        {
            assert(0 <= filter_index(t.mx + y as int * wm.abcd@[1] + x as int * wm.abcd@[0]) < 193);
            let filter: [i8; 8] = filter_at(f, t.mx, wm.beta() as i32, y as i32, wm.alpha() as i32, x as i32);
            let mut v: [i32; 8] = [0; 8];
            let ghost g = |i: int| p.clamped(t.view().dx + x - 3 + i, t.view().dy + y - 3);
            let mut i: usize = 0;
            while i < 8
                invariant
                    i <= 8,
                    x < 8,
                    y < 15,
                    warp_ok(p, wm, bit_depth as int),
                    t.fits(wm.abcd@),
                    pmax == pow2(bit_depth as nat) - 1,
                    g == (|i: int| p.clamped(t.view().dx + x - 3 + i, t.view().dy + y - 3)),
                    forall|k: int| 0 <= k < i ==> #[trigger] v@[k] == g(k) && iabs(g(k)) <= pmax,
                decreases 8 - i,
            {
                v[i] = p.px((t.dx + x as i32 - 3 + i as i32) as isize, (t.dy + y as i32 - 3) as isize);
                assert(v@[i as int] == g(i as int));
                i = i + 1;
            }
            let sum: i32 = taps(&filter, &v, Ghost(g), Ghost(pmax));
            mid[y * 8 + x] = round_by(sum, shift, Ghost(d));
            x = x + 1;
        }
        y = y + 1;
    }
    mid
}

/// Predicts one 8x8 block into `dst`, of which only the part inside `bw` by `bh`
/// is written.
fn warp_8x8<T: Pixel>(
    p: &Plane<T>,
    f: &WarpFilters,
    dst: &mut Plane<T>,
    dst_x: isize,
    dst_y: isize,
    wm: &WarpedMotionParams,
    t: &TilePosition,
    bx: usize,
    by: usize,
    bw: usize,
    bh: usize,
    bit_depth: usize,
)
    requires
        warp_ok(p, wm, bit_depth as int),
        t.fits(wm.abcd@),
        old(dst).wf(),
        bx < bw <= 128,
        by < bh <= 128,
        old(dst).cfg.has(dst_x as int, dst_y as int),
        old(dst).cfg.has(dst_x + bw - 1, dst_y + bh - 1),
    ensures
        final(dst).wf(),
        final(dst).cfg == old(dst).cfg,
        forall|x: int, y: int| 0 <= x < 8 && 0 <= y < 8 && bx + x < bw && by + y < bh ==>
            #[trigger] final(dst).sample(dst_x + (bx + x), dst_y + (by + y)) == warp_tile_sample(p, f, wm.abcd@, t.view(), bit_depth as int, x, y),
        forall|u: int, v: int| old(dst).cfg.has(u, v) && !(dst_x + bx <= u < dst_x + bx + 8 && u < dst_x + bw && dst_y + by <= v < dst_y + by + 8 && v < dst_y + bh) ==>
            #[trigger] final(dst).sample(u, v) == old(dst).sample(u, v),
{
    let mid: [i32; 120] = horizontal_pass(p, f, wm, t, bit_depth);
    let shift: u32 = if bit_depth == 8 { 11 } else { 9 };
    let pmax: i32 = if bit_depth == 8 { 255 } else if bit_depth == 10 { 1023 } else { 4095 };
    let ghost d = second_pass_scale(bit_depth as int);
    let ghost orig = *dst;
    proof {
        lemma2_to64();
    }
    let mut y: usize = 0;
    while y < 8
        invariant
            y <= 8,
            warp_ok(p, wm, bit_depth as int),
            t.fits(wm.abcd@),
            dst.wf(),
            dst.cfg == orig.cfg,
            bx < bw <= 128,
            by < bh <= 128,
            dst.cfg.has(dst_x as int, dst_y as int),
            dst.cfg.has(dst_x + bw - 1, dst_y + bh - 1),
            shift == 11 || shift == 9,
            d == pow2(shift as nat),
            d == second_pass_scale(bit_depth as int),
            pmax == pow2(bit_depth as nat) - 1,
            pmax >= 255,
            forall|i: int, j: int| 0 <= i < 8 && 0 <= j < 15 ==> {
                &&& #[trigger] mid@[j * 8 + i] == warp_mid(p, f, wm.abcd@, t.view(), bit_depth as int, i, j)
                &&& iabs(mid@[j * 8 + i] as int) <= 0x40000
            },
            forall|i: int, j: int| 0 <= i < 8 && 0 <= j < y && bx + i < bw && by + j < bh ==>
                #[trigger] dst.sample(dst_x + (bx + i), dst_y + (by + j)) == warp_tile_sample(p, f, wm.abcd@, t.view(), bit_depth as int, i, j),
            forall|u: int, v: int| orig.cfg.has(u, v) && !(dst_x + bx <= u < dst_x + bx + 8 && u < dst_x + bw && dst_y + by <= v < dst_y + by + y && v < dst_y + bh) ==>
                #[trigger] dst.sample(u, v) == orig.sample(u, v),
        decreases 8 - y,
    {
        let mut x: usize = 0;
        while x < 8
            invariant
                x <= 8,
                y < 8,
                warp_ok(p, wm, bit_depth as int),
                t.fits(wm.abcd@),
                dst.wf(),
                dst.cfg == orig.cfg,
                bx < bw <= 128,
                by < bh <= 128,
                dst.cfg.has(dst_x as int, dst_y as int),
                dst.cfg.has(dst_x + bw - 1, dst_y + bh - 1),
                shift == 11 || shift == 9,
                d == pow2(shift as nat),
                d == second_pass_scale(bit_depth as int),
                pmax == pow2(bit_depth as nat) - 1,
                pmax >= 255,
                forall|i: int, j: int| 0 <= i < 8 && 0 <= j < 15 ==> {
                    &&& #[trigger] mid@[j * 8 + i] == warp_mid(p, f, wm.abcd@, t.view(), bit_depth as int, i, j)
                    &&& iabs(mid@[j * 8 + i] as int) <= 0x40000
                },
                forall|i: int, j: int| 0 <= i < 8 && 0 <= j && (j < y || j == y && i < x) && bx + i < bw && by + j < bh ==>
                    #[trigger] dst.sample(dst_x + (bx + i), dst_y + (by + j)) == warp_tile_sample(p, f, wm.abcd@, t.view(), bit_depth as int, i, j),
                forall|u: int, v: int| orig.cfg.has(u, v)
                    && !(dst_x + bx <= u < dst_x + bx + 8 && u < dst_x + bw && dst_y + by <= v < dst_y + by + y + 1 && v < dst_y + bh) ==>
                    #[trigger] dst.sample(u, v) == orig.sample(u, v),
            decreases 8 - x,
        {
            assert(0 <= filter_index(t.my + y as int * wm.abcd@[3] + x as int * wm.abcd@[2]) < 193);
            let filter: [i8; 8] = filter_at(f, t.my, wm.delta() as i32, y as i32, wm.gamma() as i32, x as i32);
            let ghost g = |i: int| warp_mid(p, f, wm.abcd@, t.view(), bit_depth as int, x as int, y + i);
            let v: [i32; 8] = column(&mid, x, y, Ghost(g));
            let sum: i32 = taps(&filter, &v, Ghost(g), Ghost(0x40000));
            let s: i32 = round_by(sum, shift, Ghost(d));
            let c: i32 = if s < 0 { 0 } else if s > pmax { pmax } else { s };
            assert(c == warp_tile_sample(p, f, wm.abcd@, t.view(), bit_depth as int, x as int, y as int));
            if bx + x < bw && by + y < bh {
                dst.set(dst_x + (bx + x) as isize, dst_y + (by + y) as isize, T::cast_from(c));
            }
            x = x + 1;
        }
        y = y + 1;
    }
}

/// Eight samples of the horizontal pass, down a column.
fn column(mid: &[i32; 120], x: usize, y: usize, Ghost(g): Ghost<spec_fn(int) -> int>) -> (r: [i32; 8])
    requires
        x < 8,
        y < 8,
        forall|i: int, j: int| 0 <= i < 8 && 0 <= j < 15 ==> iabs(#[trigger] mid@[j * 8 + i] as int) <= 0x40000,
        forall|i: int| 0 <= i < 8 ==> mid@[(y + i) * 8 + x] == #[trigger] g(i),
    ensures
        forall|i: int| 0 <= i < 8 ==> #[trigger] r@[i] == g(i) && iabs(g(i)) <= 0x40000,
{
    let r: [i32; 8] = [
        mid[y * 8 + x],
        mid[(y + 1) * 8 + x],
        mid[(y + 2) * 8 + x],
        mid[(y + 3) * 8 + x],
        mid[(y + 4) * 8 + x],
        mid[(y + 5) * 8 + x],
        mid[(y + 6) * 8 + x],
        mid[(y + 7) * 8 + x],
    ];
    proof {
        assert forall|i: int| 0 <= i < 8 implies #[trigger] r@[i] == g(i) && iabs(g(i)) <= 0x40000 by {
            assert(mid@[(y + i) * 8 + x] == g(i));
        }
    }
    r
}

/// Predicts a warped block. The block's corner in luma samples is
/// `(bx_luma, by_luma)`; its size in this plane is `bw` by `bh`, and it is
/// written to `dst` at `(dst_x, dst_y)`. Samples outside the reference picture
/// repeat its edge.
pub fn predict_warp<T: Pixel>(
    ref_plane: &Plane<T>,
    filters: &WarpFilters,
    dst: &mut Plane<T>,
    dst_x: isize,
    dst_y: isize,
    wm: &WarpedMotionParams,
    bx_luma: i32,
    by_luma: i32,
    bw: usize,
    bh: usize,
    ss_hor: i32,
    ss_ver: i32,
    bit_depth: usize,
)
    requires
        warp_ok(ref_plane, wm, bit_depth as int),
        old(dst).wf(),
        0 < bw <= 128,
        0 < bh <= 128,
        0 <= bx_luma <= 0x10000,
        0 <= by_luma <= 0x10000,
        0 <= ss_hor <= 1,
        0 <= ss_ver <= 1,
        old(dst).cfg.has(dst_x as int, dst_y as int),
        old(dst).cfg.has(dst_x + bw - 1, dst_y + bh - 1),
    ensures
        final(dst).wf(),
        final(dst).cfg == old(dst).cfg,
        forall|x: int, y: int| 0 <= x < bw && 0 <= y < bh ==> #[trigger] final(dst).sample(dst_x + x, dst_y + y) == warp_sample(
            ref_plane,
            filters,
            wm,
            bx_luma as int,
            by_luma as int,
            ss_hor as int,
            ss_ver as int,
            bit_depth as int,
            x,
            y,
        ),
        forall|u: int, v: int| old(dst).cfg.has(u, v) && !(dst_x <= u < dst_x + bw && dst_y <= v < dst_y + bh) ==>
            #[trigger] final(dst).sample(u, v) == old(dst).sample(u, v),
{
    let ghost orig = *dst;
    let mut by: usize = 0;
    while by < bh
        invariant
            warp_ok(ref_plane, wm, bit_depth as int),
            dst.wf(),
            dst.cfg == orig.cfg,
            0 < bw <= 128,
            0 < bh <= 128,
            by <= 128,
            by % 8 == 0,
            0 <= bx_luma <= 0x10000,
            0 <= by_luma <= 0x10000,
            0 <= ss_hor <= 1,
            0 <= ss_ver <= 1,
            orig.cfg.has(dst_x as int, dst_y as int),
            orig.cfg.has(dst_x + bw - 1, dst_y + bh - 1),
            forall|x: int, y: int| 0 <= x < bw && 0 <= y < bh && y < by ==> #[trigger] dst.sample(dst_x + x, dst_y + y) == warp_sample(
                ref_plane, filters, wm, bx_luma as int, by_luma as int, ss_hor as int, ss_ver as int, bit_depth as int, x, y),
            forall|u: int, v: int| orig.cfg.has(u, v) && !(dst_x <= u < dst_x + bw && dst_y <= v < dst_y + by && v < dst_y + bh) ==>
                #[trigger] dst.sample(u, v) == orig.sample(u, v),
        decreases bh + 8 - by,
    {
        let mut bx: usize = 0;
        while bx < bw
            invariant
                warp_ok(ref_plane, wm, bit_depth as int),
                dst.wf(),
                dst.cfg == orig.cfg,
                0 < bw <= 128,
                by < bh <= 128,
                by % 8 == 0,
                bx % 8 == 0,
                bx <= 128,
                0 <= bx_luma <= 0x10000,
                0 <= by_luma <= 0x10000,
                0 <= ss_hor <= 1,
                0 <= ss_ver <= 1,
                orig.cfg.has(dst_x as int, dst_y as int),
                orig.cfg.has(dst_x + bw - 1, dst_y + bh - 1),
                forall|x: int, y: int| 0 <= x < bw && 0 <= y < bh && (y < by || y < by + 8 && x < bx) ==> #[trigger] dst.sample(dst_x + x, dst_y + y) == warp_sample(
                    ref_plane, filters, wm, bx_luma as int, by_luma as int, ss_hor as int, ss_ver as int, bit_depth as int, x, y),
                forall|u: int, v: int| orig.cfg.has(u, v) && !(dst_x <= u < dst_x + bw && dst_y <= v < dst_y + by + 8 && v < dst_y + bh) ==>
                    #[trigger] dst.sample(u, v) == orig.sample(u, v),
            decreases bw + 8 - bx,
        {
            let t: TilePosition = locate(wm, bx_luma, by_luma, bx, by, ss_hor, ss_ver);
            let ghost before = *dst;
            warp_8x8(ref_plane, filters, dst, dst_x, dst_y, wm, &t, bx, by, bw, bh, bit_depth);
            proof {
                assert forall|x: int, y: int| 0 <= x < bw && 0 <= y < bh && (y < by || y < by + 8 && x < bx + 8) implies
                    #[trigger] dst.sample(dst_x + x, dst_y + y) == warp_sample(
                    ref_plane, filters, wm, bx_luma as int, by_luma as int, ss_hor as int, ss_ver as int, bit_depth as int, x, y) by {
                    if y >= by && x >= bx {
                        assert(x - x % 8 == bx && y - y % 8 == by);
                        assert(dst.sample(dst_x + (bx + (x - bx)), dst_y + (by + (y - by))) == warp_tile_sample(
                            ref_plane, filters, wm.abcd@, t.view(), bit_depth as int, x - bx, y - by));
                    } else {
                        assert(before.cfg.has(dst_x + x, dst_y + y));
                        assert(dst.sample(dst_x + x, dst_y + y) == before.sample(dst_x + x, dst_y + y));
                    }
                }
            }
            bx = bx + 8;
        }
        by = by + 8;
    }
}

/// A warped prediction never reads the padding of its reference: two planes of the
/// same visible size whose visible samples agree are predicted alike, whatever lies
/// around them. Every predicted sample respects the bit depth.
pub proof fn law_warp_never_reads_padding<T: Pixel>(
    p: &Plane<T>,
    q: &Plane<T>,
    f: &WarpFilters,
    wm: &WarpedMotionParams,
    bx_luma: int,
    by_luma: int,
    ss_hor: int,
    ss_ver: int,
    bit_depth: int,
    x: int,
    y: int,
)
    requires
        0 < p.cfg.width == q.cfg.width,
        0 < p.cfg.height == q.cfg.height,
        forall|u: int, v: int| 0 <= u < p.cfg.width && 0 <= v < p.cfg.height ==> #[trigger] p.sample(u, v) == q.sample(u, v),
    ensures
        warp_sample(p, f, wm, bx_luma, by_luma, ss_hor, ss_ver, bit_depth, x, y) == warp_sample(
            q, f, wm, bx_luma, by_luma, ss_hor, ss_ver, bit_depth, x, y),
        0 <= warp_sample(p, f, wm, bx_luma, by_luma, ss_hor, ss_ver, bit_depth, x, y) <= pow2(bit_depth as nat) - 1,
{
    let t = warp_tile(wm, bx_luma, by_luma, x - x % 8, y - y % 8, ss_hor, ss_ver);
    let abcd = wm.abcd@;
    assert forall|i: int, j: int| #[trigger] warp_mid(p, f, abcd, t, bit_depth, i, j) == warp_mid(q, f, abcd, t, bit_depth, i, j) by {
        let row = |k: int| p.clamped(t.dx + i - 3 + k, t.dy + j - 3);
        let same = |k: int| q.clamped(t.dx + i - 3 + k, t.dy + j - 3);
        assert(row =~= same);
    }
    let col = |k: int| warp_mid(p, f, abcd, t, bit_depth, x % 8, y % 8 + k);
    let same = |k: int| warp_mid(q, f, abcd, t, bit_depth, x % 8, y % 8 + k);
    assert(col =~= same);
    lemma_pow2_pos(bit_depth as nat);
}

/// The strongest shear of a frame-wide linear model, given in units of 2^-16 as
/// `[xx, xy, yx, yy]`: the model is held to the range of a solved block, then
/// decomposed.
pub fn model_shear(m: [i64; 4]) -> (r: u64)
    ensures
        ({
            let mat = held_model(m@);
            let (a, b, c, d) = shear_of(mat);
            r == imax(imax(iabs(a), iabs(b)), imax(iabs(c), iabs(d)))
        }),
{
    let mut wm: WarpedMotionParams = WarpedMotionParams {
        matrix: [
            0,
            0,
            held(m[0], 0xe001, 0x11fff),
            held(m[1], -0x1fff, 0x1fff),
            held(m[2], -0x1fff, 0x1fff),
            held(m[3], 0xe001, 0x11fff),
        ],
        abcd: [0, 0, 0, 0],
        valid: false,
    };
    assert(wm.matrix@ =~= held_model(m@));
    let _too_strong: bool = get_shear_params(&mut wm);
    let a: i32 = abs_i32(wm.alpha() as i32);
    let b: i32 = abs_i32(wm.beta() as i32);
    let c: i32 = abs_i32(wm.gamma() as i32);
    let d: i32 = abs_i32(wm.delta() as i32);
    let ab: i32 = if a >= b { a } else { b };
    let cd: i32 = if c >= d { c } else { d };
    if ab >= cd { ab as u64 } else { cd as u64 }
}

/// A frame-wide linear model held to the range of a solved block.
pub open spec fn held_model(m: Seq<i64>) -> Seq<i32> {
    seq![
        0i32,
        0i32,
        iclamp(m[0] as int, 0xe001, 0x11fff) as i32,
        iclamp(m[1] as int, -0x1fff, 0x1fff) as i32,
        iclamp(m[2] as int, -0x1fff, 0x1fff) as i32,
        iclamp(m[3] as int, 0xe001, 0x11fff) as i32,
    ]
}

fn held(v: i64, lo: i32, hi: i32) -> (r: i32)
    requires
        -0x4000_0000 <= lo <= hi <= 0x4000_0000,
    ensures
        r == iclamp(v as int, lo as int, hi as int),
{
    let w: i64 = if v < -0x4000_0000 { -0x4000_0000 } else if v > 0x4000_0000 { 0x4000_0000 } else { v };
    iclip(w as i32, lo, hi)
}

/// A model without rotation, zoom or shear, whatever its translation, decomposes
/// into no shear at all, and its warp is valid.
pub proof fn law_translation_has_zero_shear(mat: Seq<i32>)
    requires
        mat.len() == 6,
        mat[2] == 0x10000,
        mat[3] == 0,
        mat[4] == 0,
        mat[5] == 0x10000,
    ensures
        shear_of(mat) == (0int, 0int, 0int, 0int),
        shear_fits(seq![0i16, 0, 0, 0]),
{
    let (shift, y) = divisor(0x10000);
    lemma_floor_log2(0x10000);
    lemma2_to64();
    lemma_floor_log2_above(0x10000, 16);
    lemma_floor_log2_below(0x10000, 17);
    assert(mat[4] * 0x10000 * y == 0) by (nonlinear_arith) requires mat[4] == 0;
    assert(mat[3] * mat[4] * y == 0) by (nonlinear_arith) requires mat[4] == 0;
    lemma_pow2_pos(30);
    lemma_signed_rdiv_small(0, 30, 0);
}

/// Every shear coefficient is a multiple of 64.
pub proof fn law_shear_is_in_steps_of_64(mat: Seq<i32>)
    ensures
        ({
            let (a, b, c, d) = shear_of(mat);
            a % 64 == 0 && b % 64 == 0 && c % 64 == 0 && d % 64 == 0
        }),
{
}

/// A neighbour whose motion disagrees with the block's has no influence: as long
/// as one neighbour agrees, changing those that do not leaves the normal
/// equations as they are.
pub proof fn law_outliers_are_ignored(s: Seq<Sample>, t: Seq<Sample>, b: WarpBlock)
    requires
        s.len() == t.len(),
        forall|k: int| 0 <= k < s.len() ==> agrees(#[trigger] s[k], b) == agrees(t[k], b) && (agrees(s[k], b) ==> s[k] == t[k]),
        agreeing_count(s, imin(s.len() as int, 8), b) > 0,
    ensures
        block_sums(s, b) == block_sums(t, b),
{
    lemma_same_agreeing(s, t, imin(s.len() as int, 8), b);
}

proof fn lemma_same_agreeing(s: Seq<Sample>, t: Seq<Sample>, n: int, b: WarpBlock)
    requires
        n <= s.len() == t.len(),
        forall|k: int| 0 <= k < s.len() ==> agrees(#[trigger] s[k], b) == agrees(t[k], b) && (agrees(s[k], b) ==> s[k] == t[k]),
    ensures
        agreeing_sums(s, n, b) == agreeing_sums(t, n, b),
        agreeing_count(s, n, b) == agreeing_count(t, n, b),
    decreases n,
{
    if n > 0 {
        lemma_same_agreeing(s, t, n - 1, b);
        assert(agrees(s[n - 1], b) == agrees(t[n - 1], b));
    }
}

/// The reciprocal is good to one part in 256: with shift `s` and multiplier `y`,
/// `y / 2^s` is `1 / d` but for that. The multiplier keeps fourteen bits, and for a
/// power of two it is exact.
pub proof fn law_reciprocal_error(d: nat)
    requires
        d >= 1,
    ensures
        ({
            let (s, y) = divisor(d);
            &&& s == floor_log2(d) + 14
            &&& 8192 <= y <= 16384
            &&& 256 * iabs(d * y - pow2(s as nat)) < pow2(s as nat)
            &&& (exists|k: nat| d == pow2(k)) ==> y == 16384
        }),
{
    let l = floor_log2(d);
    let f = divisor_index(d);
    let (s, y) = divisor(d);
    let p = pow2(l) as int;
    let m = 256 + f;
    let e = d - p;
    lemma_floor_log2(d);
    lemma_divisor_index(d);
    lemma_pow2_pos(l);
    lemma_pow2_unfold(l + 1);
    lemma_pow2_adds(l, 14);
    lemma2_to64();
    // The index is the fraction in 256ths, but for half a step.
    let a = 256 * d - m * p;
    assert(-p <= 2 * a <= p) by {
        if l > 8 {
            let q = pow2((l - 8) as nat) as int;
            let h = pow2((l - 9) as nat) as int;
            lemma_pow2_unfold((l - 8) as nat);
            lemma_pow2_pos((l - 9) as nat);
            lemma_pow2_adds((l - 8) as nat, 8);
            lemma_fundamental_div_mod(e + h, q);
            let r = (e + h) % q;
            assert(a == 256 * (r - h)) by (nonlinear_arith)
                requires a == 256 * d - (256 + f) * p, e == d - p, p == q * 256, e + h == q * f + r,
            ;
        } else {
            let q = pow2((8 - l) as nat) as int;
            lemma_pow2_adds(l, (8 - l) as nat);
            assert(a == 0) by (nonlinear_arith)
                requires a == 256 * d - (256 + f) * p, e == d - p, p * q == 256, f == e * q,
            ;
        }
    }
    // The table entry is 2^22 / m, but for half a unit.
    let b = y * m - 0x40_0000;
    lemma_fundamental_div_mod(0x40_0000 + m / 2, m);
    assert(-m <= 2 * b <= m) by (nonlinear_arith)
        requires
            256 <= m,
            0x40_0000 + m / 2 == m * y + (0x40_0000 + m / 2) % m,
            0 <= (0x40_0000 + m / 2) % m < m,
            b == y * m - 0x40_0000,
    ;
    lemma_table_range(m, y, b);
    lemma_reciprocal_error(d as int, p, m, y, a, b);
    assert(s as nat == l + 14);
    assert(256 * iabs(d * y - pow2(s as nat)) < pow2(s as nat));
    if exists|k: nat| d == pow2(k) {
        let k = choose|k: nat| d == pow2(k);
        lemma_floor_log2_above(d, k);
        if l > k {
            lemma_pow2_strictly_increases(k, l);
        }
        assert(e == 0);
        if l > 8 {
            lemma_pow2_unfold((l - 8) as nat);
            lemma_pow2_pos((l - 9) as nat);
        }
        assert(f == 0) by {
            if l > 8 {
                let h = pow2((l - 9) as nat) as int;
                assert(h / (2 * h) == 0) by (nonlinear_arith) requires h > 0;
            }
        }
        assert(y == 16384) by (nonlinear_arith)
            requires m == 256, b == y * m - 0x40_0000, -m <= 2 * b <= m,
        ;
    }
}

proof fn lemma_table_range(m: int, y: int, b: int)
    requires
        256 <= m <= 512,
        b == y * m - 0x40_0000,
        -m <= 2 * b <= m,
    ensures
        8192 <= y <= 16384,
{
    assert(y >= 8192) by (nonlinear_arith)
        requires 256 <= m <= 512, 2 * (y * m - 0x40_0000) >= -m,
    ;
    assert(y <= 16384) by (nonlinear_arith)
        requires 256 <= m <= 512, 2 * (y * m - 0x40_0000) <= m,
    ;
}

proof fn lemma_reciprocal_error(d: int, p: int, m: int, y: int, a: int, b: int)
    requires
        d >= 1,
        p >= 1,
        256 <= m <= 512,
        a == 256 * d - m * p,
        -p <= 2 * a <= p,
        b == y * m - 0x40_0000,
        -m <= 2 * b <= m,
    ensures
        256 * iabs(d * y - p * 16384) < p * 16384,
{
    let g = d * y - p * 16384;
    let z = m * g;
    assert(256 * z == 0x40_0000 * a + 256 * (d * b)) by (nonlinear_arith)
        requires z == m * g, g == d * y - p * 16384, a == 256 * d - m * p, b == y * m - 0x40_0000,
    ;
    let u = d * m;
    assert(-u <= 2 * (d * b) <= u) by (nonlinear_arith)
        requires d >= 1, -m <= 2 * b <= m, u == d * m,
    ;
    let w = m * p;
    assert(512 * u <= 2 * (m * w) + w) by (nonlinear_arith)
        requires u == d * m, w == m * p, 512 * d <= 2 * w + p, m > 0,
    ;
    assert(m * w <= 512 * w && w >= 256 * p) by (nonlinear_arith)
        requires w == m * p, p >= 1, 256 <= m <= 512,
    ;
    assert(iabs(256 * z) < 16384 * w);
    assert(256 * iabs(g) < p * 16384) by (nonlinear_arith)
        requires -16384 * w < 256 * z < 16384 * w, z == m * g, w == m * p, m >= 256, p >= 1,
    ;
}

/// The neighbours that take part in the solve, in their order.
pub open spec fn kept(samples: Seq<Sample>, b: WarpBlock) -> Seq<Sample> {
    samples.filter(|p: Sample| agrees(p, b))
}

/// Two models are the same.
pub open spec fn same_model(r: WarpedMotionParams, q: WarpedMotionParams) -> bool {
    r.matrix@ =~= q.matrix@ && r.abcd@ =~= q.abcd@ && r.valid == q.valid
}

/// The normal equations of a block determine its model.
pub proof fn law_equations_determine_the_model(r: WarpedMotionParams, q: WarpedMotionParams, s: AffineSums, b: WarpBlock)
    requires
        models(r, s, b),
        models(q, s, b),
    ensures
        same_model(r, q),
{
    if determinant(s) != 0 {
        assert(r.matrix@ =~= q.matrix@);
        assert(r.abcd@.len() == 4 && q.abcd@.len() == 4);
        assert(r.abcd@ =~= q.abcd@);
    }
}

/// The kept neighbours alone, in any order, give the model of all of them.
pub proof fn law_kept_neighbours_decide(samples: Seq<Sample>, t: Seq<Sample>, r: WarpedMotionParams, q: WarpedMotionParams, b: WarpBlock)
    requires
        1 <= samples.len() <= 8,
        kept(samples, b).len() > 0,
        t.to_multiset() == kept(samples, b).to_multiset(),
        models(r, block_sums(samples, b), b),
        models(q, block_sums(t, b), b),
    ensures
        block_sums(t, b) == block_sums(samples, b),
        same_model(r, q),
{
    let k = kept(samples, b);
    lemma_kept(samples, b);
    k.to_multiset_ensures();
    t.to_multiset_ensures();
    assert forall|i: int| 0 <= i < t.len() implies agrees(#[trigger] t[i], b) by {
        assert(t.contains(t[i]));
        assert(k.to_multiset().count(t[i]) > 0);
        assert(k.contains(t[i]));
    }
    lemma_all_agree(t, t.len() as int, b);
    lemma_any_order(t, k, b);
    law_equations_determine_the_model(r, q, block_sums(samples, b), b);
}

/// Where no neighbour agrees, the first alone gives the model.
pub proof fn law_first_neighbour_stands_in(samples: Seq<Sample>, r: WarpedMotionParams, q: WarpedMotionParams, b: WarpBlock)
    requires
        1 <= samples.len() <= 8,
        kept(samples, b).len() == 0,
        models(r, block_sums(samples, b), b),
        models(q, block_sums(samples.take(1), b), b),
    ensures
        block_sums(samples.take(1), b) == block_sums(samples, b),
        same_model(r, q),
{
    lemma_kept(samples, b);
    lemma_disagree(samples, samples.len() as int, b);
    let t = samples.take(1);
    assert(t[0] == samples[0]);
    assert(!agrees(samples[0], b));
    assert(agreeing_count(t, 1, b) == agreeing_count(t, 0, b));
    law_equations_determine_the_model(r, q, block_sums(samples, b), b);
}

/// Only the first eight neighbours count.
pub proof fn law_eight_neighbours_count(samples: Seq<Sample>, r: WarpedMotionParams, q: WarpedMotionParams, b: WarpBlock)
    requires
        samples.len() >= 8,
        models(r, block_sums(samples, b), b),
        models(q, block_sums(samples.take(8), b), b),
    ensures
        block_sums(samples.take(8), b) == block_sums(samples, b),
        same_model(r, q),
{
    lemma_prefix_agreeing(samples, samples.take(8), 8, b);
    law_equations_determine_the_model(r, q, block_sums(samples, b), b);
}

/// The first `n` neighbours decide what is summed over them.
proof fn lemma_prefix_agreeing(s: Seq<Sample>, t: Seq<Sample>, n: int, b: WarpBlock)
    requires
        n <= s.len(),
        n <= t.len(),
        forall|k: int| 0 <= k < n ==> #[trigger] s[k] == t[k],
    ensures
        agreeing_sums(s, n, b) == agreeing_sums(t, n, b),
        agreeing_count(s, n, b) == agreeing_count(t, n, b),
        sums(s, n, b) == sums(t, n, b),
    decreases n,
{
    if n > 0 {
        lemma_prefix_agreeing(s, t, n - 1, b);
        assert(s[n - 1] == t[n - 1]);
    }
}

/// The kept neighbours are those that agree, and their sums those of the solve.
proof fn lemma_kept(s: Seq<Sample>, b: WarpBlock)
    ensures
        kept(s, b).len() == agreeing_count(s, s.len() as int, b),
        sums(kept(s, b), kept(s, b).len() as int, b) == agreeing_sums(s, s.len() as int, b),
        forall|i: int| 0 <= i < kept(s, b).len() ==> agrees(#[trigger] kept(s, b)[i], b),
    decreases s.len(),
{
    reveal(Seq::filter);
    let p = |p: Sample| agrees(p, b);
    if s.len() > 0 {
        let d = s.drop_last();
        let n = d.len() as int;
        lemma_kept(d, b);
        lemma_prefix_agreeing(s, d, n, b);
        if agrees(s.last(), b) {
            let k = kept(s, b);
            assert(p(s.last()));
            assert(k == kept(d, b).push(s.last()));
            lemma_prefix_agreeing(k, kept(d, b), kept(d, b).len() as int, b);
        }
    }
}

/// Where all agree, all count.
proof fn lemma_all_agree(s: Seq<Sample>, n: int, b: WarpBlock)
    requires
        0 <= n <= s.len(),
        forall|i: int| 0 <= i < n ==> agrees(#[trigger] s[i], b),
    ensures
        agreeing_count(s, n, b) == n,
        agreeing_sums(s, n, b) == sums(s, n, b),
    decreases n,
{
    if n > 0 {
        lemma_all_agree(s, n - 1, b);
    }
}

/// Where none is counted, none agrees.
proof fn lemma_disagree(s: Seq<Sample>, n: int, b: WarpBlock)
    requires
        0 <= n <= s.len(),
    ensures
        agreeing_count(s, n, b) >= 0,
        agreeing_count(s, n, b) == 0 ==> forall|i: int| 0 <= i < n ==> !agrees(#[trigger] s[i], b),
    decreases n,
{
    if n > 0 {
        lemma_disagree(s, n - 1, b);
    }
}

/// Taking one neighbour out takes its terms out.
proof fn lemma_without(s: Seq<Sample>, i: int, n: int, b: WarpBlock)
    requires
        0 <= i < n <= s.len(),
    ensures
        sums(s, n, b) == plus(sums(s.remove(i), n - 1, b), terms(s[i], b)),
    decreases n,
{
    if i < n - 1 {
        lemma_without(s, i, n - 1, b);
        assert(s.remove(i)[n - 2] == s[n - 1]);
    } else {
        lemma_prefix_agreeing(s, s.remove(i), n - 1, b);
    }
}

/// The sums do not depend on the order.
proof fn lemma_any_order(s: Seq<Sample>, t: Seq<Sample>, b: WarpBlock)
    requires
        s.to_multiset() == t.to_multiset(),
    ensures
        s.len() == t.len(),
        sums(s, s.len() as int, b) == sums(t, t.len() as int, b),
    decreases s.len(),
{
    s.to_multiset_ensures();
    t.to_multiset_ensures();
    if s.len() > 0 {
        let n = s.len() - 1;
        let x = s[n];
        assert(s.contains(x));
        assert(t.to_multiset().count(x) > 0);
        let i = choose|i: int| 0 <= i < t.len() && t[i] == x;
        assert(s.remove(n).to_multiset() =~= t.remove(i).to_multiset());
        lemma_any_order(s.remove(n), t.remove(i), b);
        lemma_without(s, n, s.len() as int, b);
        lemma_without(t, i, t.len() as int, b);
    }
}

/// Where the model takes a point, in units of 2^-16 of a luma sample: the first row of the
/// linear part gives the column, the second the row.
pub open spec fn taken_to(mat: Seq<i32>, x: int, y: int) -> (int, int) {
    (mat[2] * x + mat[3] * y + mat[0], mat[4] * x + mat[5] * y + mat[1])
}

/// A block of the prediction is read from where the model takes its centre. The centre of
/// the 8x8 block at `(bx, by)` of the plane is a point of the luma plane; the model takes it
/// to another, and the samples that are read lie four columns to the left and four rows
/// above that one's whole samples on the plane. What is left over, less the shear from the
/// corner to the centre, is the filter position at the corner, to 64ths of its unit.
pub proof fn law_blocks_are_read_where_the_model_takes_them(
    wm: &WarpedMotionParams,
    bx_luma: int,
    by_luma: int,
    bx: int,
    by: int,
    ss_hor: int,
    ss_ver: int,
)
    requires
        0 <= ss_hor <= 1,
        0 <= ss_ver <= 1,
    ensures
        ({
            let t = warp_tile(wm, bx_luma, by_luma, bx, by, ss_hor, ss_ver);
            let sx = if ss_hor == 0 { 1int } else { 2 };
            let sy = if ss_ver == 0 { 1int } else { 2 };
            let (x, y) = taken_to(wm.matrix@, bx_luma + (bx + 4) * sx, by_luma + (by + 4) * sy);
            let a = wm.abcd@;
            &&& (65536 * sx) * (t.dx + 4) <= x < (65536 * sx) * (t.dx + 5)
            &&& (65536 * sy) * (t.dy + 4) <= y < (65536 * sy) * (t.dy + 5)
            &&& t.mx % 64 == 0 && t.my % 64 == 0
            &&& 0 <= x - sx * (65536 * (t.dx + 4) + 4 * a[0] + 7 * a[1] + t.mx) < 64 * sx
            &&& 0 <= y - sy * (65536 * (t.dy + 4) + 4 * a[2] + 4 * a[3] + t.my) < 64 * sy
        }),
{
}

/// A model that takes the centre of a block to itself reads the block where it lies.
pub proof fn law_fixed_blocks_stay(wm: &WarpedMotionParams, bx_luma: int, by_luma: int, bx: int, by: int)
    requires
        taken_to(wm.matrix@, bx_luma + bx + 4, by_luma + by + 4) == (65536 * (bx_luma + bx + 4), 65536 * (by_luma + by + 4)),
    ensures
        warp_tile(wm, bx_luma, by_luma, bx, by, 0, 0).dx == bx_luma + bx,
        warp_tile(wm, bx_luma, by_luma, bx, by, 0, 0).dy == by_luma + by,
{
    law_blocks_are_read_where_the_model_takes_them(wm, bx_luma, by_luma, bx, by, 0, 0);
}

/// Where rows stay rows, the row that is read does not depend on the block's column; where
/// columns stay columns, the column does not depend on the block's row.
pub proof fn law_straight_models_keep_rows_and_columns(
    wm: &WarpedMotionParams,
    bx_luma: int,
    by_luma: int,
    bx: int,
    by: int,
    other: int,
    ss_hor: int,
    ss_ver: int,
)
    ensures
        ({
            let t = warp_tile(wm, bx_luma, by_luma, bx, by, ss_hor, ss_ver);
            let u = warp_tile(wm, bx_luma, by_luma, other, by, ss_hor, ss_ver);
            let v = warp_tile(wm, bx_luma, by_luma, bx, other, ss_hor, ss_ver);
            &&& wm.matrix@[4] == 0 ==> u.dy == t.dy && u.my == t.my
            &&& wm.matrix@[3] == 0 ==> v.dx == t.dx && v.mx == t.mx
        }),
{
}

/// A translation by whole luma samples moves what is read by as many, and leaves the filter
/// positions alone.
pub proof fn law_translations_move_what_is_read(wm: &WarpedMotionParams, moved: &WarpedMotionParams, bx_luma: int, by_luma: int, bx: int, by: int, a: int, b: int)
    requires
        moved.abcd@ == wm.abcd@,
        moved.matrix@[0] == wm.matrix@[0] + 65536 * a,
        moved.matrix@[1] == wm.matrix@[1] + 65536 * b,
        forall|i: int| 2 <= i < 6 ==> #[trigger] moved.matrix@[i] == wm.matrix@[i],
    ensures
        ({
            let t = warp_tile(wm, bx_luma, by_luma, bx, by, 0, 0);
            let u = warp_tile(moved, bx_luma, by_luma, bx, by, 0, 0);
            u.dx == t.dx + a && u.dy == t.dy + b && u.mx == t.mx && u.my == t.my
        }),
{
    assert(moved.matrix@[2] == wm.matrix@[2] && moved.matrix@[3] == wm.matrix@[3]);
    assert(moved.matrix@[4] == wm.matrix@[4] && moved.matrix@[5] == wm.matrix@[5]);
}

/// The filter of a position is the nearest: filters stand 1024 units apart, the one in
/// place 64 serves position zero, and from the middle the later one is taken.
pub proof fn law_nearest_filter_serves(t: int, i: int)
    ensures
        1024 * (filter_index(t) - 64) - 512 <= t < 1024 * (filter_index(t) - 64) + 512,
        1024 * (i - 64) - 512 <= t < 1024 * (i - 64) + 512 ==> filter_index(t) == i,
        filter_index(0) == 64,
{
}

/// The filter positions of a block lie in the reach of the filters.
proof fn lemma_positions_reach(wm: &WarpedMotionParams, bx_luma: int, by_luma: int, bx: int, by: int, ss_hor: int, ss_ver: int, x: int, y: int)
    requires
        shear_fits(wm.abcd@),
        0 <= x < 8,
        0 <= y < 15,
    ensures
        ({
            let t = warp_tile(wm, bx_luma, by_luma, bx, by, ss_hor, ss_ver);
            let a = wm.abcd@;
            &&& 0 <= filter_index(t.mx + y * a[1] + x * a[0]) < 193
            &&& y < 8 ==> 0 <= filter_index(t.my + y * a[3] + x * a[2]) < 193
        }),
{
    let a = wm.abcd@;
    let (mvx, mvy) = warp_origin(wm.matrix@, bx_luma, by_luma, bx, by, ss_hor, ss_ver);
    lemma_product(x - 4, a[0] as int, 4, iabs(a[0] as int));
    lemma_product(y - 7, a[1] as int, 7, iabs(a[1] as int));
    assert((x - 4) * a[0] == x * a[0] - 4 * a[0] && (y - 7) * a[1] == y * a[1] - 7 * a[1]) by (nonlinear_arith);
    lemma_filter_reach(mvx, a[0] as int, a[1] as int, x, y, 4, 7);
    if y < 8 {
        lemma_product(x - 4, a[2] as int, 4, iabs(a[2] as int));
        lemma_product(y - 4, a[3] as int, 4, iabs(a[3] as int));
        assert((x - 4) * a[2] == x * a[2] - 4 * a[2] && (y - 4) * a[3] == y * a[3] - 4 * a[3]) by (nonlinear_arith);
        lemma_filter_reach(mvy, a[2] as int, a[3] as int, x, y, 4, 4);
    }
}

/// A flat reference is predicted flat, wherever the model takes the block, if the filters
/// keep the level.
pub proof fn law_flat_references_predict_flat<T: Pixel>(
    p: &Plane<T>,
    f: &WarpFilters,
    wm: &WarpedMotionParams,
    bx_luma: int,
    by_luma: int,
    ss_hor: int,
    ss_ver: int,
    bit_depth: int,
    x: int,
    y: int,
    v: int,
)
    requires
        warp_ok(p, wm, bit_depth),
        forall|k: int| 0 <= k < 193 ==> gain((#[trigger] f@[k])@) == 128,
        forall|a: int, b: int| 0 <= a < p.cfg.width && 0 <= b < p.cfg.height ==> #[trigger] p.sample(a, b) == v,
        0 <= v <= pow2(bit_depth as nat) - 1,
    ensures
        warp_sample(p, f, wm, bx_luma, by_luma, ss_hor, ss_ver, bit_depth, x, y) == v,
{
    let t = warp_tile(wm, bx_luma, by_luma, x - x % 8, y - y % 8, ss_hor, ss_ver);
    let abcd = wm.abcd@;
    let (s1, s2) = (first_pass_scale(bit_depth), second_pass_scale(bit_depth));
    let m = if bit_depth == 8 { 16 * v } else { 4 * v };
    let (i, j) = (x % 8, y % 8);
    let col = |k: int| warp_mid(p, f, abcd, t, bit_depth, i, j + k);
    assert forall|k: int| 0 <= k < 8 implies #[trigger] col(k) == m by {
        lemma_positions_reach(wm, bx_luma, by_luma, x - i, y - j, ss_hor, ss_ver, i, j + k);
        let row = f@[filter_index(t.mx + (j + k) * abcd[1] + i * abcd[0])]@;
        crate::mc::lemma_equal_taps(row, |n: int| p.clamped(t.dx + i - 3 + n, t.dy + (j + k) - 3), v);
        assert(128 * v == m * s1);
        law_rounding_is_to_the_nearest(0, s1, m);
    }
    lemma_positions_reach(wm, bx_luma, by_luma, x - i, y - j, ss_hor, ss_ver, i, j);
    let down = f@[filter_index(t.my + j * abcd[3] + i * abcd[2])]@;
    crate::mc::lemma_equal_taps(down, col, m);
    assert(128 * m == v * s2);
    law_rounding_is_to_the_nearest(0, s2, v);
}

/// A filter passes on one of its eight values alone.
pub open spec fn passes_on(f: Seq<i8>, i: int) -> bool {
    0 <= i < 8 && forall|k: int| 0 <= k < 8 ==> #[trigger] f[k] == if k == i { 127int } else { 0 }
}

/// A prediction is read around its place in the block. With a filter for the column that
/// passes on its `j`-th value alone, only the reference row of that value counts, from three
/// above to four below; with one for that row that passes on its `i`-th value, only the
/// sample in that column counts. The filter for the column goes by the second pair of shear
/// coefficients, along the block's columns and rows, and that for a row by the first pair,
/// with the rows counted from the first that is read.
pub proof fn law_predictions_are_read_around_their_place<T: Pixel>(
    p: &Plane<T>,
    q: &Plane<T>,
    f: &WarpFilters,
    wm: &WarpedMotionParams,
    bx_luma: int,
    by_luma: int,
    ss_hor: int,
    ss_ver: int,
    bit_depth: int,
    x: int,
    y: int,
    h: int,
    v: int,
    i: int,
    j: int,
)
    requires
        ({
            let t = warp_tile(wm, bx_luma, by_luma, x - x % 8, y - y % 8, ss_hor, ss_ver);
            let a = wm.abcd@;
            let along = t.mx + a[0] * (x % 8) + a[1] * (y % 8 + j);
            let down = t.my + a[2] * (x % 8) + a[3] * (y % 8);
            &&& 1024 * (h - 64) - 512 <= along < 1024 * (h - 64) + 512
            &&& 1024 * (v - 64) - 512 <= down < 1024 * (v - 64) + 512
            &&& passes_on(f@[h]@, i)
            &&& passes_on(f@[v]@, j)
            &&& p.clamped(t.dx + x % 8 - 3 + i, t.dy + y % 8 - 3 + j) == q.clamped(t.dx + x % 8 - 3 + i, t.dy + y % 8 - 3 + j)
        }),
    ensures
        warp_sample(p, f, wm, bx_luma, by_luma, ss_hor, ss_ver, bit_depth, x, y) == warp_sample(
            q, f, wm, bx_luma, by_luma, ss_hor, ss_ver, bit_depth, x, y),
{
    let t = warp_tile(wm, bx_luma, by_luma, x - x % 8, y - y % 8, ss_hor, ss_ver);
    let a = wm.abcd@;
    let (cx, cy) = (x % 8, y % 8);
    assert(a[0] * cx == cx * a[0] && a[1] * (cy + j) == (cy + j) * a[1] && a[2] * cx == cx * a[2] && a[3] * cy == cy * a[3]) by (nonlinear_arith);
    law_nearest_filter_serves(t.mx + (cy + j) * a[1] + cx * a[0], h);
    law_nearest_filter_serves(t.my + cy * a[3] + cx * a[2], v);
    let pc = |k: int| warp_mid(p, f, a, t, bit_depth, cx, cy + k);
    let qc = |k: int| warp_mid(q, f, a, t, bit_depth, cx, cy + k);
    let row = f@[h]@;
    let pr = |k: int| p.clamped(t.dx + cx - 3 + k, t.dy + (cy + j) - 3);
    let qr = |k: int| q.clamped(t.dx + cx - 3 + k, t.dy + (cy + j) - 3);
    crate::mc::lemma_single_tap(row, pr, i);
    crate::mc::lemma_single_tap(row, qr, i);
    assert(pr(i) == qr(i));
    assert(pc(j) == qc(j));
    crate::mc::lemma_single_tap(f@[v]@, pc, j);
    crate::mc::lemma_single_tap(f@[v]@, qc, j);
}

/// A prediction reads eight columns and eight rows of the reference.
pub proof fn law_warp_is_local<T: Pixel>(
    p: &Plane<T>,
    q: &Plane<T>,
    f: &WarpFilters,
    wm: &WarpedMotionParams,
    bx_luma: int,
    by_luma: int,
    ss_hor: int,
    ss_ver: int,
    bit_depth: int,
    x: int,
    y: int,
)
    requires
        ({
            let t = warp_tile(wm, bx_luma, by_luma, x - x % 8, y - y % 8, ss_hor, ss_ver);
            forall|a: int, b: int|
                t.dx + x % 8 - 3 <= a <= t.dx + x % 8 + 4 && t.dy + y % 8 - 3 <= b <= t.dy + y % 8 + 4 ==> #[trigger] p.clamped(a, b) == q.clamped(a, b)
        }),
    ensures
        warp_sample(p, f, wm, bx_luma, by_luma, ss_hor, ss_ver, bit_depth, x, y) == warp_sample(
            q, f, wm, bx_luma, by_luma, ss_hor, ss_ver, bit_depth, x, y),
{
    let t = warp_tile(wm, bx_luma, by_luma, x - x % 8, y - y % 8, ss_hor, ss_ver);
    let a = wm.abcd@;
    let (cx, cy) = (x % 8, y % 8);
    let pc = |k: int| warp_mid(p, f, a, t, bit_depth, cx, cy + k);
    let qc = |k: int| warp_mid(q, f, a, t, bit_depth, cx, cy + k);
    assert forall|k: int| 0 <= k < 8 implies #[trigger] pc(k) == qc(k) by {
        let row = f@[filter_index(t.mx + (cy + k) * a[1] + cx * a[0])]@;
        let pr = |n: int| p.clamped(t.dx + cx - 3 + n, t.dy + (cy + k) - 3);
        let qr = |n: int| q.clamped(t.dx + cx - 3 + n, t.dy + (cy + k) - 3);
        crate::mc::lemma_same_taps(row, pr, qr, 8);
    }
    crate::mc::lemma_same_taps(f@[filter_index(t.my + cy * a[3] + cx * a[2])]@, pc, qc, 8);
}

/// Both passes together undo the gain of the filters twice; samples of more than eight bits
/// give up two more of them in the first.
pub proof fn law_both_passes_undo_the_gain(bit_depth: int)
    requires
        bit_depth == 8 || bit_depth == 10 || bit_depth == 12,
    ensures
        first_pass_scale(bit_depth) * second_pass_scale(bit_depth) == 128 * 128,
        first_pass_scale(bit_depth) == if bit_depth == 8 { 8int } else { 32 },
{
}

/// The centre of a solved block moves by the block's motion vector, in eighths of a sample,
/// unless its translation is held to the range of the format.
pub proof fn law_centres_move_with_their_blocks(mat: Seq<i32>, s: AffineSums, b: WarpBlock)
    requires
        solves(mat, s, b),
    ensures
        ({
            let cx = 4 * b.bx4 + (4 * b.bw4) / 2 - 1;
            let cy = 4 * b.by4 + (4 * b.bh4) / 2 - 1;
            let (x, y) = taken_to(mat, cx, cy);
            &&& -0x800000 <= mat[0] <= 0x7fffff && -0x800000 <= mat[1] <= 0x7fffff
            &&& -0x800000 < mat[0] < 0x7fffff ==> x == 65536 * cx + 8192 * b.mv.col
            &&& -0x800000 < mat[1] < 0x7fffff ==> y == 65536 * cy + 8192 * b.mv.row
        }),
{
    let isux = b.bx4 * 4 + 2 * b.bw4 - 1;
    let isuy = b.by4 * 4 + 2 * b.bh4 - 1;
    assert(isux * (mat[2] - 0x10000) == mat[2] * isux - 0x10000 * isux) by (nonlinear_arith);
    assert(isuy * (mat[5] - 0x10000) == mat[5] * isuy - 0x10000 * isuy) by (nonlinear_arith);
    assert(isuy * mat[3] == mat[3] * isuy && isux * mat[4] == mat[4] * isux) by (nonlinear_arith);
}

/// A neighbour keeps its row in the block: its motion takes it as far below the block's
/// centre as it was.
pub open spec fn keeps_its_row(p: Sample, b: WarpBlock) -> bool {
    p@[1]@[1] - p@[0]@[1] == b.mv.row
}

/// A neighbour keeps its column in the block.
pub open spec fn keeps_its_column(p: Sample, b: WarpBlock) -> bool {
    p@[1]@[0] - p@[0]@[0] == b.mv.col
}

/// The equations for the rows say that rows stay where they are.
spec fn rows_stay(s: AffineSums) -> bool {
    s.by0 == s.a01 && s.by1 == s.a11
}

/// The equations for the columns say that columns stay where they are.
spec fn columns_stay(s: AffineSums) -> bool {
    s.bx0 == s.a00 && s.bx1 == s.a01
}

proof fn lemma_row_terms(p: Sample, b: WarpBlock)
    ensures
        keeps_its_row(p, b) ==> rows_stay(terms(p, b)),
        keeps_its_column(p, b) ==> columns_stay(terms(p, b)),
{
    reveal(quarter_of);
    let (cx, cy) = b.centre();
    let (sx, sy) = (p@[0]@[0] - cx, p@[0]@[1] - cy);
    assert(sx * sy == sy * sx) by (nonlinear_arith);
}

proof fn lemma_row_sums(samples: Seq<Sample>, n: int, b: WarpBlock)
    requires
        0 <= n <= samples.len(),
    ensures
        (forall|i: int| 0 <= i < n ==> keeps_its_row(#[trigger] samples[i], b)) ==> rows_stay(agreeing_sums(samples, n, b)),
        (forall|i: int| 0 <= i < n ==> keeps_its_column(#[trigger] samples[i], b)) ==> columns_stay(agreeing_sums(samples, n, b)),
    decreases n,
{
    if n > 0 {
        lemma_row_sums(samples, n - 1, b);
        lemma_row_terms(samples[n - 1], b);
    }
}

/// Where every neighbour keeps its row, the solved model keeps rows as they are: the row
/// that a point is taken to does not depend on its column. Where every neighbour keeps its
/// column, columns are kept in the same way.
pub proof fn law_straight_motion_gives_straight_models(samples: Seq<Sample>, r: WarpedMotionParams, b: WarpBlock)
    requires
        samples.len() >= 1,
        models(r, block_sums(samples, b), b),
    ensures
        (forall|i: int| 0 <= i < samples.len() ==> keeps_its_row(#[trigger] samples[i], b)) ==> r.matrix@[4] == 0,
        (forall|i: int| 0 <= i < samples.len() ==> keeps_its_column(#[trigger] samples[i], b)) ==> r.matrix@[3] == 0,
{
    let n = imin(samples.len() as int, 8);
    let s = block_sums(samples, b);
    lemma_row_sums(samples, n, b);
    lemma_row_terms(samples[0], b);
    if determinant(s) != 0 {
        let (idet, shift) = inverse(determinant(s));
        lemma_pow2_pos(shift);
        assert(0 * idet == 0);
        lemma_signed_rdiv_small(0, shift, 0);
        if forall|i: int| 0 <= i < samples.len() ==> keeps_its_row(#[trigger] samples[i], b) {
            assert(keeps_its_row(samples[0], b));
            assert(rows_stay(s));
            assert(s.a11 * s.by0 - s.a01 * s.by1 == 0) by (nonlinear_arith)
                requires s.by0 == s.a01, s.by1 == s.a11;
        }
        if forall|i: int| 0 <= i < samples.len() ==> keeps_its_column(#[trigger] samples[i], b) {
            assert(keeps_its_column(samples[0], b));
            assert(columns_stay(s));
            assert(s.a00 * s.bx1 - s.a01 * s.bx0 == 0) by (nonlinear_arith)
                requires s.bx0 == s.a00, s.bx1 == s.a01;
        }
    }
}

/// A neighbour seen with columns and rows exchanged.
pub open spec fn transposed(p: Sample) -> Sample {
    [[p@[0]@[1], p@[0]@[0]], [p@[1]@[1], p@[1]@[0]]]
}

/// A block seen with columns and rows exchanged.
pub open spec fn transposed_block(b: WarpBlock) -> WarpBlock {
    WarpBlock { bw4: b.bh4, bh4: b.bw4, mv: MotionVector { row: b.mv.col, col: b.mv.row }, bx4: b.by4, by4: b.bx4 }
}

spec fn transposed_sums(s: AffineSums) -> AffineSums {
    AffineSums { a00: s.a11, a01: s.a01, a11: s.a00, bx0: s.by1, bx1: s.by0, by0: s.bx1, by1: s.bx0 }
}

proof fn lemma_transposed_terms(p: Sample, b: WarpBlock)
    ensures
        terms(transposed(p), transposed_block(b)) == transposed_sums(terms(p, b)),
        agrees(transposed(p), transposed_block(b)) == agrees(p, b),
{
    reveal(quarter_of);
    let (cx, cy) = b.centre();
    let (sx, sy) = (p@[0]@[0] - cx, p@[0]@[1] - cy);
    assert(sx * sy == sy * sx) by (nonlinear_arith);
}

proof fn lemma_transposed_sums(samples: Seq<Sample>, t: Seq<Sample>, n: int, b: WarpBlock)
    requires
        0 <= n <= samples.len(),
        t.len() == samples.len(),
        forall|i: int| 0 <= i < t.len() ==> #[trigger] t[i] == transposed(samples[i]),
    ensures
        agreeing_sums(t, n, transposed_block(b)) == transposed_sums(agreeing_sums(samples, n, b)),
        agreeing_count(t, n, transposed_block(b)) == agreeing_count(samples, n, b),
    decreases n,
{
    if n > 0 {
        lemma_transposed_sums(samples, t, n - 1, b);
        lemma_transposed_terms(samples[n - 1], b);
        assert(t[n - 1] == transposed(samples[n - 1]));
    }
}

/// The solve treats columns and rows alike: with both exchanged in the block and in its
/// neighbours, they are exchanged in the matrix.
pub proof fn law_solving_treats_both_directions_alike(samples: Seq<Sample>, t: Seq<Sample>, r: WarpedMotionParams, q: WarpedMotionParams, b: WarpBlock)
    requires
        samples.len() >= 1,
        t.len() == samples.len(),
        forall|i: int| 0 <= i < t.len() ==> #[trigger] t[i] == transposed(samples[i]),
        models(r, block_sums(samples, b), b),
        models(q, block_sums(t, transposed_block(b)), transposed_block(b)),
    ensures
        q.matrix@[0] == r.matrix@[1] && q.matrix@[1] == r.matrix@[0],
        q.matrix@[2] == r.matrix@[5] && q.matrix@[5] == r.matrix@[2],
        q.matrix@[3] == r.matrix@[4] && q.matrix@[4] == r.matrix@[3],
{
    let n = imin(samples.len() as int, 8);
    lemma_transposed_sums(samples, t, n, b);
    lemma_transposed_terms(samples[0], b);
    assert(t[0] == transposed(samples[0]));
    let s = block_sums(samples, b);
    let u = block_sums(t, transposed_block(b));
    assert(u == transposed_sums(s));
    assert(s.a00 * s.a11 == s.a11 * s.a00) by (nonlinear_arith);
}

/// What a neighbour adds to the equations, in quarters of products of places that are
/// counted in eighths of a sample, two eighths further out: nothing is lost but the rest of
/// the division.
pub proof fn law_equations_hold_quarters(sx: int, sy: int, dx: int, dy: int)
    requires
        -256 < sx - dx < 256,
        -256 < sy - dy < 256,
    ensures
        ({
            let s = terms_at(sx, sy, dx, dy);
            &&& 0 <= sx * sx + 8 * sx + 32 - 4 * s.a00 < 4
            &&& 0 <= sy * sy + 8 * sy + 32 - 4 * s.a11 < 4
            &&& 0 <= sx * sy + 4 * sx + 4 * sy + 16 - 4 * s.a01 < 4
            &&& 0 <= sx * dx + 4 * sx + 4 * dx + 32 - 4 * s.bx0 < 4
            &&& 0 <= sy * dx + 4 * sy + 4 * dx + 16 - 4 * s.bx1 < 4
            &&& 0 <= sx * dy + 4 * sx + 4 * dy + 16 - 4 * s.by0 < 4
            &&& 0 <= sy * dy + 4 * sy + 4 * dy + 32 - 4 * s.by1 < 4
        }),
{
    reveal(quarter_of);
}

/// A neighbour counts if its motion is off from the block's by no more than the block's
/// longer side in samples; but by sixteen always, and by more than 112 never.
pub proof fn law_neighbours_count_by_their_motion(p: Sample, b: WarpBlock)
    requires
        b.wf(),
    ensures
        ({
            let off_x = p@[1]@[0] - p@[0]@[0] - b.mv.col;
            let off_y = p@[1]@[1] - p@[0]@[1] - b.mv.row;
            let off = (if off_x < 0 { -off_x } else { off_x }) + (if off_y < 0 { -off_y } else { off_y });
            &&& off <= 16 ==> agrees(p, b)
            &&& off > 112 ==> !agrees(p, b)
            &&& 16 < off <= 112 ==> (agrees(p, b) <==> off <= 4 * b.bw4 || off <= 4 * b.bh4)
        }),
{
}

/// A shear coefficient is the nearest multiple of 64, and away from zero in the middle; its
/// sign is the number's.
pub proof fn law_coefficients_are_rounded(v: int, w: int)
    requires
        -32767 <= v <= 32767,
        0 <= w <= v,
    ensures
        reduced(v) % 64 == 0,
        -32 <= reduced(v) - v <= 32,
        reduced(-v) == -reduced(v),
        v > 0 ==> reduced(v) - v > -32,
        reduced(w) <= reduced(v),
{
}

/// The shear of a model that keeps the horizontal scale is read off its matrix: the first
/// two coefficients are its column's, the third the change of row along a row, and the
/// fourth the vertical scale without what the others account for.
pub proof fn law_unscaled_shear(mat: Seq<i32>)
    requires
        mat.len() == 6,
        mat[2] == 0x10000,
        -0x1fff <= mat[3] <= 0x1fff,
        -0x1fff <= mat[4] <= 0x1fff,
    ensures
        ({
            let (a, b, c, d) = shear_of(mat);
            &&& a == 0
            &&& b == reduced(mat[3] as int)
            &&& c == reduced(mat[4] as int)
            &&& mat[3] == 0 || mat[4] == 0 ==> d == reduced(mat[5] - 0x10000)
        }),
{
    let (shift, y) = divisor(0x10000);
    lemma_floor_log2(0x10000);
    lemma2_to64();
    lemma_floor_log2_above(0x10000, 16);
    lemma_floor_log2_below(0x10000, 17);
    assert(floor_log2(0x10000) == 16);
    assert(pow2(16) == 0x10000 && pow2(7) == 128 && pow2(8) == 256);
    let (half, unit) = (pow2(7) as int, pow2(8) as int);
    assert(half / unit == 0) by (nonlinear_arith)
        requires half == 128, unit == 256;
    assert((16 - 9) as nat == 7 && (16 - 8) as nat == 8);
    assert(divisor_index(0x10000) == 0);
    let whole: int = 256;
    assert((0x40_0000 + whole / 2) / whole == 16384) by (nonlinear_arith)
        requires whole == 256;
    assert(reciprocal(0) == 16384);
    assert(shift == 30 && y == 16384);
    let m4 = mat[4] as int;
    let v = m4 * 0x10000 * y;
    assert(pow2(30) == 0x4000_0000);
    assert(v == m4 * 0x4000_0000);
    lemma_signed_rdiv_small(v, 30, 0x1fff);
    if mat[3] == 0 || mat[4] == 0 {
        assert(mat[3] * mat[4] * y == 0) by (nonlinear_arith)
            requires mat[3] == 0 || mat[4] == 0;
        lemma_signed_rdiv_small(0, 30, 0);
    }
}

/// A model is warped only while the filters reach: over half a block along a row and down a
/// column, the shear moves a filter position by less than a sample.
pub proof fn law_shear_stays_in_reach(abcd: Seq<i16>, x: int, y: int)
    requires
        shear_fits(abcd),
        -4 <= x <= 4,
        -7 <= y <= 7,
    ensures
        -0x10000 < x * abcd[0] + y * abcd[1] < 0x10000,
        -4 <= y <= 4 ==> -0x10000 < x * abcd[2] + y * abcd[3] < 0x10000,
{
    lemma_product(x, abcd[0] as int, 4, iabs(abcd[0] as int));
    lemma_product(y, abcd[1] as int, 7, iabs(abcd[1] as int));
    lemma_product(x, abcd[2] as int, 4, iabs(abcd[2] as int));
    if -4 <= y <= 4 {
        lemma_product(y, abcd[3] as int, 4, iabs(abcd[3] as int));
    }
}

/// A quotient by a power of two is the nearest integer to it, and as far from zero on
/// either side.
pub proof fn law_quotients_are_to_the_nearest(v: int, s: nat)
    requires
        iabs(v) <= 0x3fff_ffff * pow2(s),
    ensures
        2 * iabs(signed_rdiv(v, s) * pow2(s) - v) <= pow2(s),
        signed_rdiv(-v, s) == -signed_rdiv(v, s),
        0 <= v ==> 2 * (signed_rdiv(v, s) * pow2(s) - v) > -(pow2(s) as int),
{
    let p = pow2(s) as int;
    let m = iabs(v);
    lemma_pow2_pos(s);
    lemma_signed_rdiv_small(v, s, 0x3fff_ffff);
    lemma_signed_rdiv_small(-v, s, 0x3fff_ffff);
    let q = rdiv(m, s);
    lemma_fundamental_div_mod(m + p / 2, p);
    assert(q * p == p * q) by (nonlinear_arith);
    assert((-q) * p == -(q * p)) by (nonlinear_arith);
    if s == 0 {
        lemma2_to64();
    } else {
        lemma_pow2_unfold(s);
    }
    assert(-p < 2 * (q * p - m) <= p) by (nonlinear_arith)
        requires
            p >= 1,
            m + p / 2 == q * p + (m + p / 2) % p,
            0 <= (m + p / 2) % p < p,
            p == 1 || p % 2 == 0,
    ;
    if v == 0 {
        assert(q == 0) by (nonlinear_arith)
            requires -p < 2 * (q * p) <= p, p >= 1,
        ;
    }
}

/// A solved entry is the quotient itself where that lies in the entry's range, and the
/// nearer end of the range where it does not: an eighth about zero off the diagonal, and as
/// much about one on it.
pub proof fn law_solved_entries_are_held_near_the_identity(px: int, idet: int, shift: nat)
    ensures
        ({
            let q = signed_rdiv(px * idet, shift);
            &&& -8192 < q < 8192 ==> ndiag(px, idet, shift) == q
            &&& q >= 8192 ==> ndiag(px, idet, shift) == 8191
            &&& q <= -8192 ==> ndiag(px, idet, shift) == -8191
            &&& -8192 < q - 65536 < 8192 ==> diag(px, idet, shift) == q
            &&& q >= 65536 + 8192 ==> diag(px, idet, shift) == 65536 + 8191
            &&& q <= 65536 - 8192 ==> diag(px, idet, shift) == 65536 - 8191
        }),
{
}

/// A determinant over itself is one, in units of 2^-16 and but for one part in 256.
proof fn lemma_unit_quotient(det: int)
    requires
        det != 0,
    ensures
        ({
            let (idet, shift) = inverse(det);
            65280 <= signed_rdiv(det * idet, shift) <= 65792
        }),
{
    let d = iabs(det) as nat;
    let (s0, y) = divisor(d);
    let (idet, shift) = inverse(det);
    let v = det * idet;
    let w = d * y;
    law_reciprocal_error(d);
    lemma_pow2_pos(s0 as nat);
    lemma2_to64();
    if s0 < 16 {
        let k = pow2((16 - s0) as nat) as int;
        let t = pow2(s0 as nat) as int;
        lemma_pow2_adds(s0 as nat, (16 - s0) as nat);
        lemma_pow2_pos((16 - s0) as nat);
        assert(v == w * k) by (nonlinear_arith)
            requires v == det * idet, idet == (if det < 0 { -y } else { y }) * k, w == d * y, d == if det < 0 { -det } else { det },
        ;
        assert(-65536 < 256 * (v - 65536) < 65536) by (nonlinear_arith)
            requires v == w * k, t * k == 65536, k >= 1, -t < 256 * (w - t) < t,
        ;
        assert(shift == 0);
        lemma_signed_rdiv_small(v, 0, 0x3fff_ffff);
        assert(rdiv(v, 0) == v);
    } else {
        let p = pow2(shift) as int;
        lemma_pow2_adds(shift, 16);
        lemma_pow2_pos(shift);
        assert(v == w) by (nonlinear_arith)
            requires v == det * idet, idet == (if det < 0 { -y } else { y }), w == d * y, d == if det < 0 { -det } else { det },
        ;
        assert(shift + 16 == s0 as nat);
        assert(-(p * 65536) < 256 * (v - p * 65536) < p * 65536);
        assert(iabs(v) <= 0x3fff_ffff * p);
        lemma_signed_rdiv_small(v, shift, 0x3fff_ffff);
        assert(65280 <= (v + p / 2) / p <= 65792) by (nonlinear_arith)
            requires 65280 * p < v < 65792 * p, p >= 1,
        ;
    }
}

/// Where every neighbour keeps its column, the solved model keeps the horizontal scale, but
/// for what the reciprocal loses; where every one keeps its row, the vertical scale.
pub proof fn law_straight_motion_keeps_the_scale(samples: Seq<Sample>, r: WarpedMotionParams, b: WarpBlock)
    requires
        samples.len() >= 1,
        models(r, block_sums(samples, b), b),
        determinant(block_sums(samples, b)) != 0,
    ensures
        (forall|i: int| 0 <= i < samples.len() ==> keeps_its_column(#[trigger] samples[i], b)) ==> -256 <= r.matrix@[2] - 0x10000 <= 256,
        (forall|i: int| 0 <= i < samples.len() ==> keeps_its_row(#[trigger] samples[i], b)) ==> -256 <= r.matrix@[5] - 0x10000 <= 256,
{
    let n = imin(samples.len() as int, 8);
    let s = block_sums(samples, b);
    let det = determinant(s);
    lemma_row_sums(samples, n, b);
    lemma_row_terms(samples[0], b);
    lemma_unit_quotient(det);
    if forall|i: int| 0 <= i < samples.len() ==> keeps_its_column(#[trigger] samples[i], b) {
        assert(keeps_its_column(samples[0], b));
        assert(columns_stay(s));
        assert(s.a11 * s.bx0 - s.a01 * s.bx1 == det) by (nonlinear_arith)
            requires s.bx0 == s.a00, s.bx1 == s.a01, det == s.a00 * s.a11 - s.a01 * s.a01;
    }
    if forall|i: int| 0 <= i < samples.len() ==> keeps_its_row(#[trigger] samples[i], b) {
        assert(keeps_its_row(samples[0], b));
        assert(rows_stay(s));
        assert(s.a00 * s.by1 - s.a01 * s.by0 == det) by (nonlinear_arith)
            requires s.by0 == s.a01, s.by1 == s.a11, det == s.a00 * s.a11 - s.a01 * s.a01;
    }
}

} // verus!
