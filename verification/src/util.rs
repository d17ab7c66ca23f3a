//! Integer helpers shared by the rest of the library: shifts read as divisions,
//! clamping, rounding and binary logarithms.

use vstd::arithmetic::div_mod::*;
use vstd::arithmetic::power2::*;
use vstd::bits::{lemma_u64_pow2_no_overflow, lemma_u64_shl_is_mul};
use vstd::prelude::*;

verus! {

/// The smaller of two integers.
pub open spec fn imin(a: int, b: int) -> int {
    if a <= b { a } else { b }
}

/// The larger of two integers.
pub open spec fn imax(a: int, b: int) -> int {
    if a >= b { a } else { b }
}

/// The magnitude of an integer.
pub open spec fn iabs(a: int) -> int {
    if a < 0 { -a } else { a }
}

/// `v` brought into `lo..=hi`.
pub open spec fn iclamp(v: int, lo: int, hi: int) -> int {
    if v < lo { lo } else if v > hi { hi } else { v }
}

/// A value for each column and row.
pub type Grid = spec_fn(int, int) -> int;

/// The sum of `f` over columns `x0..x1` of row `y`.
pub open spec fn row_sum(f: Grid, x0: int, x1: int, y: int) -> int
    decreases x1 - x0,
{
    if x1 <= x0 { 0 } else { row_sum(f, x0, x1 - 1, y) + f(x1 - 1, y) }
}

/// The sum of `f` over the rectangle `x0..x1` by `y0..y1`.
pub open spec fn area_sum(f: Grid, x0: int, x1: int, y0: int, y1: int) -> int
    decreases y1 - y0,
{
    if y1 <= y0 { 0 } else { area_sum(f, x0, x1, y0, y1 - 1) + row_sum(f, x0, x1, y1 - 1) }
}

/// Halving a floor division doubles the divisor, for dividends of either sign.
pub proof fn lemma_div_halves(x: int, a: int)
    requires
        a > 0,
    ensures
        (x / a) / 2 == x / (2 * a),
{
    let q = x / a;
    let r = x % a;
    let q2 = q / 2;
    let r2 = q % 2;
    lemma_fundamental_div_mod(x, a);
    assert(x == q2 * (2 * a) + (a * r2 + r)) by (nonlinear_arith)
        requires x == a * q + r, q == 2 * q2 + r2,
    ;
    assert(0 <= a * r2 + r < 2 * a) by (nonlinear_arith)
        requires 0 <= r < a, 0 <= r2 <= 1,
    ;
    lemma_fundamental_div_mod_converse(x, 2 * a, q2, a * r2 + r);
}

/// An arithmetic right shift is a floor division by a power of two.
pub proof fn lemma_shr_i64(x: i64, s: u32)
    requires
        s < 64,
    ensures
        (x >> s) as int == x as int / pow2(s as nat) as int,
    decreases s,
{
    if s == 0 {
        assert(x >> 0u32 == x) by (bit_vector);
        lemma2_to64();
        assert(x as int / 1 == x as int);
    } else {
        let p: u32 = (s - 1) as u32;
        lemma_shr_i64(x, p);
        let y: i64 = x >> p;
        assert(x >> s == (x >> p) >> 1u32) by (bit_vector)
            requires 0 < s < 64, p == s - 1,
        ;
        assert(y == 2 * (y >> 1u32) + (y & 1) && 0 <= (y & 1) <= 1) by (bit_vector);
        assert((y >> 1u32) as int == y as int / 2) by (nonlinear_arith)
            requires y as int == 2 * ((y >> 1u32) as int) + ((y & 1) as int), 0 <= (y & 1) as int <= 1,
        ;
        lemma_pow2_unfold(s as nat);
        lemma_pow2_pos(p as nat);
        lemma_div_halves(x as int, pow2(p as nat) as int);
    }
}

/// The `i32` form of [`lemma_shr_i64`].
pub proof fn lemma_shr_i32(x: i32, s: u32)
    requires
        s < 32,
    ensures
        (x >> s) as int == x as int / pow2(s as nat) as int,
{
    let w: i64 = x as i64;
    lemma_shr_i64(w, s);
    assert((x >> s) as i64 == w >> s) by (bit_vector)
        requires s < 32, w == x as i64,
    ;
}

/// A left shift of one is a power of two.
pub proof fn lemma_one_shl_i64(s: u32)
    requires
        s < 63,
    ensures
        (1i64 << s) as int == pow2(s as nat),
        1 <= pow2(s as nat) <= 0x4000_0000_0000_0000,
    decreases s,
{
    if s == 0 {
        assert(1i64 << 0u32 == 1) by (bit_vector);
        lemma2_to64();
    } else {
        let p: u32 = (s - 1) as u32;
        lemma_one_shl_i64(p);
        assert(1i64 << s == 2 * (1i64 << p)) by (bit_vector)
            requires 0 < s < 63, p == s - 1,
        ;
        lemma_pow2_unfold(s as nat);
        let y: i64 = 1i64 << s;
        assert(y <= 0x4000_0000_0000_0000 && y >= 1) by (bit_vector)
            requires s < 63, y == 1i64 << s,
        ;
    }
}

/// The `u64` form of [`lemma_one_shl_i64`].
pub proof fn lemma_one_shl_u64(s: u64)
    requires
        s < 64,
    ensures
        (1u64 << s) as int == pow2(s as nat),
        1 <= pow2(s as nat) <= u64::MAX,
{
    lemma_pow2_pos(s as nat);
    lemma_u64_pow2_no_overflow(s as nat);
    lemma_u64_shl_is_mul(1, s);
}

/// The position of the highest set bit; zero for zero.
pub open spec fn floor_log2(n: nat) -> nat
    decreases n,
{
    if n < 2 { 0 } else { 1 + floor_log2(n / 2) }
}

/// `floor_log2` brackets its argument between neighbouring powers of two.
pub proof fn lemma_floor_log2(n: nat)
    requires
        n >= 1,
    ensures
        pow2(floor_log2(n)) <= n < pow2(floor_log2(n) + 1),
    decreases n,
{
    lemma2_to64();
    if n >= 2 {
        lemma_floor_log2(n / 2);
        lemma_pow2_unfold(floor_log2(n));
        lemma_pow2_unfold(floor_log2(n) + 1);
    }
}

/// A number below a power of two has a smaller logarithm.
pub proof fn lemma_floor_log2_below(n: nat, k: nat)
    requires
        1 <= n < pow2(k),
    ensures
        floor_log2(n) < k,
{
    lemma_floor_log2(n);
    if floor_log2(n) >= k {
        if floor_log2(n) > k {
            lemma_pow2_strictly_increases(k, floor_log2(n));
        }
    }
}

/// A number at or above a power of two has at least its logarithm.
pub proof fn lemma_floor_log2_above(n: nat, k: nat)
    requires
        pow2(k) <= n,
    ensures
        floor_log2(n) >= k,
{
    lemma_pow2_pos(k);
    lemma_floor_log2(n);
    if floor_log2(n) < k {
        if floor_log2(n) + 1 < k {
            lemma_pow2_strictly_increases(floor_log2(n) + 1, k);
        }
    }
}

/// The position of the highest set bit.
pub fn u64log2(v: u64) -> (r: i32)
    requires
        v >= 1,
    ensures
        r == floor_log2(v as nat),
        0 <= r < 64,
{
    let mut n: u64 = v;
    let mut l: i32 = 0;
    proof {
        lemma2_to64();
        lemma2_to64_rest();
        lemma_floor_log2_below(v as nat, 64);
    }
    while n >= 2
        invariant
            n >= 1,
            0 <= l,
            floor_log2(v as nat) == l + floor_log2(n as nat),
            floor_log2(v as nat) < 64,
        decreases n,
    {
        n = n / 2;
        l = l + 1;
    }
    l
}

/// The position of the highest set bit.
pub fn ulog2(v: u32) -> (r: i32)
    requires
        v >= 1,
    ensures
        r == floor_log2(v as nat),
        0 <= r < 32,
{
    proof {
        lemma2_to64();
        lemma_floor_log2_below(v as nat, 32);
    }
    u64log2(v as u64)
}

/// A number reduced to eight bits and read as a signed value.
pub open spec fn trunc8(v: int) -> int {
    let u = v % 256;
    if u < 128 { u } else { u - 256 }
}

/// `v` reduced to eight bits and read as a signed value.
pub fn truncate_i8(v: i16) -> (r: i8)
    ensures
        r == trunc8(v as int),
{
    let u: i32 = (v as i32 + 32768) % 256;
    if u < 128 { u as i8 } else { (u - 256) as i8 }
}

/// `v` reduced to 32 bits and read as a signed value.
pub open spec fn trunc32(v: int) -> int {
    let u = v % 0x1_0000_0000;
    if u < 0x8000_0000 { u } else { u - 0x1_0000_0000 }
}

/// `v` reduced to 32 bits and read as a signed value.
pub fn truncate_i32(v: i64) -> (r: i32)
    ensures
        r == trunc32(v as int),
{
    proof {
        let low: i64 = v & 0xffff_ffff;
        let high: i64 = v >> 32u32;
        assert(v == high * 0x1_0000_0000 + low && 0 <= low <= 0xffff_ffff) by (bit_vector)
            requires low == v & 0xffff_ffff, high == v >> 32u32,
        ;
        assert((v as i32) as i64 == if low < 0x8000_0000 { low as int } else { low - 0x1_0000_0000 }) by (bit_vector)
            requires low == v & 0xffff_ffff,
        ;
        lemma_fundamental_div_mod_converse(v as int, 0x1_0000_0000, high as int, low as int);
    }
    #[verifier::truncate]
    let r: i32 = v as i32;
    r
}

/// The magnitude of a 32-bit value.
pub fn abs_i32(a: i32) -> (r: i32)
    requires
        a > i32::MIN,
    ensures
        r == iabs(a as int),
{
    if a < 0 { -a } else { a }
}

/// The magnitude of a 64-bit value.
pub fn abs_i64(a: i64) -> (r: i64)
    requires
        a > i64::MIN,
    ensures
        r == iabs(a as int),
{
    if a < 0 { -a } else { a }
}

/// A number that is held to a range lies in it, and stays if it does already.
pub proof fn law_held_numbers_lie_in_their_range(v: int, lo: int, hi: int)
    requires
        lo <= hi,
    ensures
        lo <= iclamp(v, lo, hi) <= hi,
        lo <= v <= hi ==> iclamp(v, lo, hi) == v,
        v < lo ==> iclamp(v, lo, hi) == lo,
        v > hi ==> iclamp(v, lo, hi) == hi,
        imin(lo, hi) == lo && imin(hi, lo) == lo,
        imax(lo, hi) == hi && imax(hi, lo) == hi,
        iabs(v) >= 0 && (iabs(v) == v || iabs(v) == -v),
{
}

/// A number that is reduced to eight or to 32 bits differs by whole turns, and one that fits
/// stays.
pub proof fn law_reduced_numbers_differ_by_turns(v: int)
    ensures
        -128 <= trunc8(v) < 128,
        (v - trunc8(v)) % 256 == 0,
        -128 <= v < 128 ==> trunc8(v) == v,
        -0x8000_0000 <= trunc32(v) < 0x8000_0000,
        (v - trunc32(v)) % 0x1_0000_0000 == 0,
        -0x8000_0000 <= v < 0x8000_0000 ==> trunc32(v) == v,
{
}

/// The sum over a rectangle counts every place in it once: a place alone gives its value,
/// and a rectangle without places nothing; equal values count as often as there are places.
pub proof fn law_sums_count_every_place(f: Grid, x: int, y: int, w: int, h: int, c: int)
    requires
        0 <= w,
        0 <= h,
    ensures
        area_sum(f, x, x + 1, y, y + 1) == f(x, y),
        area_sum(f, x, x, y, y + h) == 0,
        area_sum(|u: int, v: int| c, x, x + w, y, y + h) == c * w * h,
{
    reveal_with_fuel(area_sum, 2);
    reveal_with_fuel(row_sum, 2);
    lemma_empty_columns(f, x, y, h);
    lemma_equal_area(x, y, w, h, c);
}

proof fn lemma_empty_columns(f: Grid, x: int, y: int, h: int)
    requires
        0 <= h,
    ensures
        area_sum(f, x, x, y, y + h) == 0,
    decreases h,
{
    if h > 0 {
        lemma_empty_columns(f, x, y, h - 1);
    }
}

proof fn lemma_equal_row(x: int, y: int, w: int, c: int)
    requires
        0 <= w,
    ensures
        row_sum(|u: int, v: int| c, x, x + w, y) == c * w,
    decreases w,
{
    if w > 0 {
        lemma_equal_row(x, y, w - 1, c);
        assert(c * w == c * (w - 1) + c) by (nonlinear_arith);
    } else {
        assert(c * 0 == 0) by (nonlinear_arith);
    }
}

proof fn lemma_equal_area(x: int, y: int, w: int, h: int, c: int)
    requires
        0 <= w,
        0 <= h,
    ensures
        area_sum(|u: int, v: int| c, x, x + w, y, y + h) == c * w * h,
    decreases h,
{
    if h > 0 {
        lemma_equal_area(x, y, w, h - 1, c);
        lemma_equal_row(x, y + h - 1, w, c);
        assert(c * w * h == c * w * (h - 1) + c * w) by (nonlinear_arith);
    } else {
        assert(c * w * 0 == 0) by (nonlinear_arith);
    }
}

} // verus!
