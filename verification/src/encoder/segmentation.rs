//! Segments of a frame with their own quantizer, and scales of distortion.

use vstd::arithmetic::power2::*;
use vstd::prelude::*;
use vstd::string::*;

use crate::encoder::frame::ReferenceFramesSet;
use crate::outside::{list_slice, listed, new_list, push_native_u32, push_native_u64, push_to_list, high_first, low_first, ShortList};
use crate::text::{push_ten_digits, ten_digits};
use crate::util::{iclamp, imin, trunc8, truncate_i8};

verus! {

/// A factor of distortion, in units of 2^-14.
#[derive(Clone, Copy, Debug, PartialEq, Eq, Structural)]
pub struct DistortionScale(pub u32);

/// The largest factor.
pub const MAX_SCALE: u32 = 0xfff_ffff;

/// A ratio in units of 2^-14, rounded, at most the largest factor.
pub open spec fn scale_of(num: int, den: int) -> int {
    imin((num * 16384 + den / 2) / den, MAX_SCALE as int)
}

/// The product of two factors, rounded, at least the smallest and at most the
/// largest factor.
pub open spec fn scale_product(a: int, b: int) -> int {
    iclamp((a * b + 8192) / 16384, 1, MAX_SCALE as int)
}

impl DistortionScale {
    /// The ratio of two numbers.
    pub fn new(num: u64, den: u64) -> (r: Self)
        requires
            num < 0x2_0000_0000_0000,
            0 < den,
        ensures
            r.0 == scale_of(num as int, den as int),
    {
        let wide: u128 = (num as u128 * 16384 + den as u128 / 2) / den as u128;
        DistortionScale(if wide < MAX_SCALE as u128 { wide as u32 } else { MAX_SCALE })
    }

    /// The product of two factors.
    pub fn times(self, rhs: DistortionScale) -> (r: Self)
        ensures
            r.0 == scale_product(self.0 as int, rhs.0 as int),
    {
        assert(0 <= self.0 * rhs.0 <= 0xffff_ffff * 0xffff_ffff) by (nonlinear_arith)
            requires 0 <= self.0 <= 0xffff_ffff, 0 <= rhs.0 <= 0xffff_ffff;
        let wide: u128 = (self.0 as u128 * rhs.0 as u128 + 8192) / 16384;
        DistortionScale(if wide < 1 {
            1
        } else if wide > MAX_SCALE as u128 {
            MAX_SCALE
        } else {
            wide as u32
        })
    }
}

/// The segments of a frame.
#[derive(Clone, Copy, Debug)]
pub struct SegmentationState {
    pub enabled: bool,
    pub update_data: bool,
    pub update_map: bool,
    pub preskip: bool,
    pub last_active_segid: u8,
    pub features: [[bool; 8]; 8],
    pub data: [[i16; 8]; 8],
    pub threshold: [DistortionScale; 7],
    pub min_segment: u8,
    pub max_segment: u8,
}

impl SegmentationState {
    /// No segments, and thresholds of one.
    pub open spec fn is_default(self) -> bool {
        &&& !self.enabled
        &&& !self.update_data
        &&& !self.update_map
        &&& !self.preskip
        &&& self.last_active_segid == 0
        &&& self.min_segment == 0
        &&& self.max_segment == 0
        &&& forall|i: int, j: int| 0 <= i < 8 && 0 <= j < 8 ==> !(#[trigger] self.features@[i]@[j])
        &&& forall|i: int, j: int| 0 <= i < 8 && 0 <= j < 8 ==> (#[trigger] self.data@[i]@[j]) == 0
        &&& forall|i: int| 0 <= i < 7 ==> (#[trigger] self.threshold@[i]).0 == 16384
    }
}

impl Default for SegmentationState {
    /// No segments, and thresholds of one.
    fn default() -> (r: Self)
        ensures
            r.is_default(),
    {
        SegmentationState {
            enabled: false,
            update_data: false,
            update_map: false,
            preskip: false,
            last_active_segid: 0,
            features: [[false; 8]; 8],
            data: [[0; 8]; 8],
            threshold: [DistortionScale(16384); 7],
            min_segment: 0,
            max_segment: 0,
        }
    }
}

/// The quantizer of a segment: the frame's, moved by the segment's delta where it
/// has one, and held to a byte.
pub open spec fn segment_qidx(s: SegmentationState, base_q_idx: int, sidx: int) -> int {
    if s.features@[sidx]@[0] { iclamp(base_q_idx + s.data@[sidx]@[0], 0, 255) } else { base_q_idx }
}

/// The quantizer of a block in segment `sidx`.
pub fn get_qidx(s: &SegmentationState, base_q_idx: u8, sidx: u8) -> (r: u8)
    requires
        sidx < 8,
    ensures
        r == segment_qidx(*s, base_q_idx as int, sidx as int),
{
    let i: usize = sidx as usize;
    if s.features[i][0] {
        let q: i32 = base_q_idx as i32 + s.data[i][0] as i32;
        if q < 0 {
            0
        } else if q > 255 {
            255
        } else {
            q as u8
        }
    } else {
        base_q_idx
    }
}

impl SegmentationState {
    /// By how much the quantizers of the segments in use are moved from the frame's,
    /// where their steps are looked up for the thresholds: the first datum of each, cut
    /// to eight bits.
    pub fn threshold_deltas(&self) -> (r: Vec<i8>)
        requires
            self.max_segment < 8,
        ensures
            r.len() == self.max_segment + 1,
            forall|i: int| 0 <= i <= self.max_segment ==> #[trigger] r@[i] == trunc8(self.data@[i]@[0] as int),
    {
        let n: usize = self.max_segment as usize + 1;
        let mut out: Vec<i8> = Vec::new();
        let mut i: usize = 0;
        while i < n
            invariant
                i <= n <= 8,
                n == self.max_segment + 1,
                out.len() == i,
                forall|k: int| 0 <= k < i ==> #[trigger] out@[k] == trunc8(self.data@[k]@[0] as int),
            decreases n - i,
        {
            out.push(truncate_i8(self.data[i][0]));
            i = i + 1;
        }
        out
    }

    /// Sets the thresholds between neighbouring segments: the frame's squared step
    /// over the product of the steps on both sides. `base_ac_q` is the frame's
    /// quantizer step, `segment_ac_q` the steps of its segments, each that of the
    /// frame's quantizer moved by the segment's delta.
    pub fn update_threshold(&mut self, base_ac_q: u16, segment_ac_q: &[u16])
        requires
            old(self).max_segment < 8,
            old(self).max_segment < segment_ac_q.len(),
            forall|i: int| 0 <= i <= old(self).max_segment ==> #[trigger] segment_ac_q@[i] > 0,
        ensures
            final(self).same_but_thresholds(old(self)),
            forall|i: int| 0 <= i < 7 ==> (#[trigger] final(self).threshold@[i]).0 == if i < old(self).max_segment {
                scale_of(base_ac_q * base_ac_q, segment_ac_q@[i + 1] * segment_ac_q@[i])
            } else {
                0
            },
    {
        let n: usize = self.max_segment as usize;
        let mut steps: ShortList = new_list();
        let mut i: usize = 0;
        while i < n + 1
            invariant
                i <= n + 1 <= 8,
                n < segment_ac_q.len(),
                listed(steps).len() == i,
                forall|k: int| 0 <= k < i ==> #[trigger] listed(steps)[k] == segment_ac_q@[k],
            decreases n + 1 - i,
        {
            push_to_list(&mut steps, segment_ac_q[i] as u64);
            i = i + 1;
        }
        let q: &[u64] = list_slice(&steps);
        let base: u64 = base_ac_q as u64;
        assert(0 <= base_ac_q * base_ac_q <= 65535 * 65535) by (nonlinear_arith)
            requires 0 <= base_ac_q <= 65535;
        let mut threshold: [DistortionScale; 7] = [DistortionScale(0); 7];
        let mut k: usize = 0;
        while k < n
            invariant
                k <= n < 8,
                n < segment_ac_q.len(),
                q@.len() == n + 1,
                base == base_ac_q,
                0 <= base_ac_q * base_ac_q <= 65535 * 65535,
                forall|i: int| 0 <= i <= n ==> #[trigger] segment_ac_q@[i] > 0,
                forall|j: int| 0 <= j < n + 1 ==> #[trigger] q@[j] == segment_ac_q@[j],
                forall|j: int| 0 <= j < 7 ==> (#[trigger] threshold@[j]).0 == if j < k {
                    scale_of(base_ac_q * base_ac_q, segment_ac_q@[j + 1] * segment_ac_q@[j])
                } else {
                    0
                },
            decreases n - k,
        {
            let q1: u64 = q[k + 1];
            let q2: u64 = q[k];
            proof {
                assert(segment_ac_q@[k + 1] > 0 && segment_ac_q@[k as int] > 0);
                assert(0 < q1 * q2 <= 65535 * 65535) by (nonlinear_arith)
                    requires 0 < q1 <= 65535, 0 < q2 <= 65535;
            }
            threshold[k] = DistortionScale::new(base * base, q1 * q2);
            k = k + 1;
        }
        self.threshold = threshold;
    }

    /// Everything but the thresholds is the same.
    pub open spec fn same_but_thresholds(&self, other: &SegmentationState) -> bool {
        &&& self.enabled == other.enabled
        &&& self.update_data == other.update_data
        &&& self.update_map == other.update_map
        &&& self.preskip == other.preskip
        &&& self.last_active_segid == other.last_active_segid
        &&& self.features == other.features
        &&& self.data == other.data
        &&& self.min_segment == other.min_segment
        &&& self.max_segment == other.max_segment
    }

    /// The thresholds in use as a record: their number, then each, in the byte order
    /// of the machine.
    pub fn threshold_record(&self) -> (r: Vec<u8>)
        requires
            self.max_segment <= 7,
        ensures
            is_record(r@, seq![self.max_segment as u64], scales_view(self.threshold@), self.max_segment as int),
    {
        let mut buf: Vec<u8> = Vec::new();
        push_native_u64(&mut buf, self.max_segment as u64);
        proof {
            lemma_native_len(self.max_segment as int, 8);
        }
        let n: usize = self.max_segment as usize;
        let mut i: usize = 0;
        while i < n
            invariant
                i <= n <= 7,
                n == self.max_segment,
                is_record(buf@, seq![self.max_segment as u64], scales_view(self.threshold@), i as int),
            decreases n - i,
        {
            let ghost before = buf@;
            push_native_u32(&mut buf, self.threshold[i].0);
            proof {
                lemma_record_step(before, buf@, seq![self.max_segment as u64], scales_view(self.threshold@), i as int);
            }
            i = i + 1;
        }
        buf
    }
}

/// The numbers of scales.
pub open spec fn scales_view(s: Seq<DistortionScale>) -> Seq<u32> {
    Seq::new(s.len(), |i: int| s[i].0)
}

/// Bytes that hold a number in one of the two byte orders.
pub open spec fn holds_number(s: Seq<u8>, v: int, n: nat) -> bool {
    s == low_first(v, n) || s == high_first(v, n)
}

/// Eight bytes for each number of the head, then four for each of the first `n`
/// values.
pub open spec fn is_record(s: Seq<u8>, head: Seq<u64>, values: Seq<u32>, n: int) -> bool {
    &&& s.len() == 8 * head.len() + 4 * n
    &&& forall|k: int| 0 <= k < head.len() ==> holds_number(#[trigger] s.subrange(8 * k, 8 * k + 8), head[k] as int, 8)
    &&& forall|k: int| 0 <= k < n ==> holds_number(#[trigger] s.subrange(8 * head.len() + 4 * k, 8 * head.len() + 4 * k + 4), values[k] as int, 4)
}

proof fn lemma_low_first_len(v: int, n: nat)
    ensures
        low_first(v, n).len() == n,
    decreases n,
{
    if n > 0 {
        lemma_low_first_len(v / 256, (n - 1) as nat);
    }
}

proof fn lemma_native_len(v: int, n: nat)
    ensures
        low_first(v, n).len() == n,
        high_first(v, n).len() == n,
        low_first(v, n).subrange(0, n as int) =~= low_first(v, n),
        high_first(v, n).subrange(0, n as int) =~= high_first(v, n),
        Seq::<u8>::empty() + low_first(v, n) =~= low_first(v, n),
        Seq::<u8>::empty() + high_first(v, n) =~= high_first(v, n),
{
    lemma_low_first_len(v, n);
}

proof fn lemma_record_step(a: Seq<u8>, b: Seq<u8>, head: Seq<u64>, values: Seq<u32>, n: int)
    requires
        0 <= n < values.len(),
        is_record(a, head, values, n),
        b == a + low_first(values[n] as int, 4) || b == a + high_first(values[n] as int, 4),
    ensures
        is_record(b, head, values, n + 1),
{
    lemma_native_len(values[n] as int, 4);
    let h = 8 * head.len() as int;
    assert forall|k: int| 0 <= k < head.len() implies holds_number(#[trigger] b.subrange(8 * k, 8 * k + 8), head[k] as int, 8) by {
        assert(b.subrange(8 * k, 8 * k + 8) =~= a.subrange(8 * k, 8 * k + 8));
    }
    assert forall|k: int| 0 <= k < n + 1 implies holds_number(#[trigger] b.subrange(h + 4 * k, h + 4 * k + 4), values[k] as int, 4) by {
        if k < n {
            assert(b.subrange(h + 4 * k, h + 4 * k + 4) =~= a.subrange(h + 4 * k, h + 4 * k + 4));
        } else if b == a + low_first(values[n] as int, 4) {
            assert(b.subrange(h + 4 * k, h + 4 * k + 4) =~= low_first(values[n] as int, 4));
        } else {
            assert(b.subrange(h + 4 * k, h + 4 * k + 4) =~= high_first(values[n] as int, 4));
        }
    }
}

/// Lookahead results of a coded frame, one value for each importance block.
pub struct CodedFrameData {
    /// The references of the next frame, with the frames as they came in.
    pub lookahead_rec_buffer: ReferenceFramesSet,
    pub w_in_imp_b: usize,
    pub h_in_imp_b: usize,
    pub lookahead_intra_costs: Vec<u32>,
    pub distortion_scales: Vec<DistortionScale>,
    pub activity_scales: Vec<DistortionScale>,
    /// The variance of the source in each block.
    pub activity_mask: Vec<u32>,
    pub spatiotemporal_scores: Vec<DistortionScale>,
}

/// Each factor times the same one.
pub open spec fn rescaled(s: Seq<DistortionScale>, by: DistortionScale) -> Seq<DistortionScale> {
    Seq::new(s.len(), |i: int| DistortionScale(scale_product(s[i].0 as int, by.0 as int) as u32))
}

/// Which scales are written out.
#[derive(Clone, Copy, Debug, PartialEq, Eq, Structural)]
pub enum Scales {
    ActivityScales,
    DistortionScales,
    SpatiotemporalScales,
}

/// The name of a record: the input frame in ten digits, and what is recorded.
pub open spec fn name_of_record(input_frameno: u64, what: Seq<char>) -> Seq<char> {
    ten_digits(input_frameno as nat) + "-"@ + what
}

fn record_name(input_frameno: u64, what: &str) -> (r: String)
    ensures
        r@ == name_of_record(input_frameno, what@),
{
    let mut out: String = String::new();
    push_ten_digits(&mut out, input_frameno);
    out.append("-");
    out.append(what);
    assert(out@ =~= name_of_record(input_frameno, what@));
    out
}

/// The name of the record of a frame's thresholds.
pub fn threshold_name(input_frameno: u64) -> (r: String)
    ensures
        r@ == name_of_record(input_frameno, "thresholds"@),
{
    record_name(input_frameno, "thresholds")
}

/// The name of the record of a frame's scales.
pub fn scales_name(input_frameno: u64, which: Scales) -> (r: String)
    ensures
        r@ == name_of_record(
            input_frameno,
            match which {
                Scales::ActivityScales => "activity_scales"@,
                Scales::DistortionScales => "distortion_scales"@,
                Scales::SpatiotemporalScales => "spatiotemporal_scales"@,
            },
        ),
{
    match which {
        Scales::ActivityScales => record_name(input_frameno, "activity_scales"),
        Scales::DistortionScales => record_name(input_frameno, "distortion_scales"),
        Scales::SpatiotemporalScales => record_name(input_frameno, "spatiotemporal_scales"),
    }
}

impl CodedFrameData {
    /// A frame of `w` by `h` blocks whose scales are not yet known.
    pub open spec fn is_new(&self, w: int, h: int) -> bool {
        &&& self.lookahead_rec_buffer.is_empty()
        &&& self.activity_mask.len() == 0
        &&& self.w_in_imp_b == w
        &&& self.h_in_imp_b == h
        &&& self.lookahead_intra_costs.len() == 0
        &&& self.distortion_scales.len() == h * w
        &&& self.activity_scales.len() == h * w
        &&& forall|i: int| 0 <= i < self.distortion_scales.len() ==> (#[trigger] self.distortion_scales@[i]).0 == 16384
        &&& forall|i: int| 0 <= i < self.activity_scales.len() ==> (#[trigger] self.activity_scales@[i]).0 == 16384
        &&& self.spatiotemporal_scores.len() == 0
    }

    /// The data of a frame of the given size in units of four samples: a quarter as
    /// many blocks, and scales that are not yet known.
    pub fn new(w_in_b: usize, h_in_b: usize) -> (r: Self)
        requires
            (h_in_b as int / 2) * (w_in_b as int / 2) <= usize::MAX,
        ensures
            r.is_new(w_in_b as int / 2, h_in_b as int / 2),
    {
        let w: usize = w_in_b / 2;
        let h: usize = h_in_b / 2;
        let n: usize = h * w;
        CodedFrameData {
            lookahead_rec_buffer: ReferenceFramesSet::new(),
            w_in_imp_b: w,
            h_in_imp_b: h,
            lookahead_intra_costs: Vec::new(),
            distortion_scales: unit_scales(n),
            activity_scales: unit_scales(n),
            activity_mask: Vec::new(),
            spatiotemporal_scores: Vec::new(),
        }
    }

    /// The product of activity and distortion of each block, before its mean is
    /// taken out.
    pub fn raw_scores(&self) -> (r: Vec<DistortionScale>)
        ensures
            r.len() == imin(self.distortion_scales.len() as int, self.activity_scales.len() as int),
            forall|i: int| 0 <= i < r.len() ==> (#[trigger] r@[i]).0 == scale_product(self.distortion_scales@[i].0 as int, self.activity_scales@[i].0 as int),
    {
        let n: usize = if self.distortion_scales.len() < self.activity_scales.len() { self.distortion_scales.len() } else { self.activity_scales.len() };
        let mut out: Vec<DistortionScale> = Vec::new();
        let mut i: usize = 0;
        while i < n
            invariant
                i <= n,
                n <= self.distortion_scales.len(),
                n <= self.activity_scales.len(),
                out.len() == i,
                forall|k: int| 0 <= k < i ==> (#[trigger] out@[k]).0 == scale_product(self.distortion_scales@[k].0 as int, self.activity_scales@[k].0 as int),
            decreases n - i,
        {
            out.push(self.distortion_scales[i].times(self.activity_scales[i]));
            i = i + 1;
        }
        out
    }

    /// Takes the mean out of scores and distortions and keeps the scores.
    /// `inv_mean` is the inverse of the mean of the raw scores, and `log` its binary
    /// logarithm; the result is half of that, rounded down.
    pub fn compute_spatiotemporal_scores(&mut self, inv_mean: DistortionScale, log: i64) -> (r: i64)
        ensures
            final(self).spatiotemporal_scores.len() == imin(old(self).distortion_scales.len() as int, old(self).activity_scales.len() as int),
            forall|i: int| 0 <= i < final(self).spatiotemporal_scores.len() ==> (#[trigger] final(self).spatiotemporal_scores@[i]).0 == scale_product(
                scale_product(old(self).distortion_scales@[i].0 as int, old(self).activity_scales@[i].0 as int),
                inv_mean.0 as int,
            ),
            final(self).distortion_scales@ == rescaled(old(self).distortion_scales@, inv_mean),
            final(self).activity_scales@ == old(self).activity_scales@,
            final(self).activity_mask@ == old(self).activity_mask@,
            final(self).lookahead_rec_buffer == old(self).lookahead_rec_buffer,
            final(self).w_in_imp_b == old(self).w_in_imp_b,
            final(self).h_in_imp_b == old(self).h_in_imp_b,
            final(self).lookahead_intra_costs@ == old(self).lookahead_intra_costs@,
            r == log as int / 2,
    {
        let raw: Vec<DistortionScale> = self.raw_scores();
        let scores: Vec<DistortionScale> = rescale(&raw, inv_mean);
        let scales: Vec<DistortionScale> = rescale(&self.distortion_scales, inv_mean);
        self.distortion_scales = scales;
        self.spatiotemporal_scores = scores;
        half(log)
    }

    /// Takes the mean out of the distortions, which are then the scores. `inv_mean`
    /// is the inverse of their mean, and `log` its binary logarithm; the result is
    /// half of that, rounded down.
    pub fn compute_temporal_scores(&mut self, inv_mean: DistortionScale, log: i64) -> (r: i64)
        ensures
            final(self).distortion_scales@ == rescaled(old(self).distortion_scales@, inv_mean),
            final(self).spatiotemporal_scores@ == final(self).distortion_scales@,
            final(self).activity_scales@ == old(self).activity_scales@,
            final(self).activity_mask@ == old(self).activity_mask@,
            final(self).lookahead_rec_buffer == old(self).lookahead_rec_buffer,
            final(self).w_in_imp_b == old(self).w_in_imp_b,
            final(self).h_in_imp_b == old(self).h_in_imp_b,
            final(self).lookahead_intra_costs@ == old(self).lookahead_intra_costs@,
            r == log as int / 2,
    {
        let scales: Vec<DistortionScale> = rescale(&self.distortion_scales, inv_mean);
        let scores: Vec<DistortionScale> = rescale(&self.distortion_scales, inv_mean);
        self.distortion_scales = scales;
        self.spatiotemporal_scores = scores;
        half(log)
    }

    /// The scales that a record is made of.
    pub open spec fn chosen(&self, which: Scales) -> Seq<DistortionScale> {
        match which {
            Scales::ActivityScales => self.activity_scales@,
            Scales::DistortionScales => self.distortion_scales@,
            Scales::SpatiotemporalScales => self.spatiotemporal_scores@,
        }
    }

    /// Scales as a record: the size in importance blocks, then each scale, in the
    /// byte order of the machine.
    pub fn scales_record(&self, which: Scales) -> (r: Vec<u8>)
        requires
            self.chosen(which).len() <= 0x1000_0000,
        ensures
            is_record(
                r@,
                seq![self.w_in_imp_b as u64, self.h_in_imp_b as u64],
                scales_view(self.chosen(which)),
                self.chosen(which).len() as int,
            ),
    {
        let scales: &Vec<DistortionScale> = match which {
            Scales::ActivityScales => &self.activity_scales,
            Scales::DistortionScales => &self.distortion_scales,
            Scales::SpatiotemporalScales => &self.spatiotemporal_scores,
        };
        let w: u64 = self.w_in_imp_b as u64;
        let h: u64 = self.h_in_imp_b as u64;
        let ghost head = seq![w, h];
        let mut buf: Vec<u8> = Vec::new();
        push_native_u64(&mut buf, w);
        let ghost first = buf@;
        push_native_u64(&mut buf, h);
        proof {
            lemma_native_len(w as int, 8);
            lemma_native_len(h as int, 8);
            assert(buf@.subrange(0, 8) =~= first);
            if buf@ == first + low_first(h as int, 8) {
                assert(buf@.subrange(8, 16) =~= low_first(h as int, 8));
            } else {
                assert(buf@.subrange(8, 16) =~= high_first(h as int, 8));
            }
            assert forall|k: int| 0 <= k < head.len() implies holds_number(#[trigger] buf@.subrange(8 * k, 8 * k + 8), head[k] as int, 8) by {
                if k == 0 {
                    assert(buf@.subrange(8 * k, 8 * k + 8) =~= first);
                } else {
                    assert(k == 1);
                }
            }
        }
        let n: usize = scales.len();
        let mut i: usize = 0;
        while i < n
            invariant
                i <= n,
                n == scales.len(),
                scales@ == self.chosen(which),
                is_record(buf@, head, scales_view(scales@), i as int),
            decreases n - i,
        {
            let ghost before = buf@;
            push_native_u32(&mut buf, scales[i].0);
            proof {
                lemma_record_step(before, buf@, head, scales_view(scales@), i as int);
            }
            i = i + 1;
        }
        assert(head =~= seq![self.w_in_imp_b as u64, self.h_in_imp_b as u64]);
        buf
    }
}

fn unit_scales(n: usize) -> (r: Vec<DistortionScale>)
    ensures
        r.len() == n,
        forall|i: int| 0 <= i < r.len() ==> (#[trigger] r@[i]).0 == 16384,
{
    let mut out: Vec<DistortionScale> = Vec::new();
    let mut i: usize = 0;
    while i < n
        invariant
            i <= n,
            out.len() == i,
            forall|k: int| 0 <= k < out.len() ==> (#[trigger] out@[k]).0 == 16384,
        decreases n - i,
    {
        out.push(DistortionScale(16384));
        i = i + 1;
    }
    out
}

fn rescale(v: &Vec<DistortionScale>, by: DistortionScale) -> (r: Vec<DistortionScale>)
    ensures
        r@ == rescaled(v@, by),
{
    let mut out: Vec<DistortionScale> = Vec::new();
    let mut i: usize = 0;
    while i < v.len()
        invariant
            i <= v.len(),
            out.len() == i,
            forall|k: int| 0 <= k < i ==> #[trigger] out@[k] == rescaled(v@, by)[k],
        decreases v.len() - i,
    {
        out.push(v[i].times(by));
        i = i + 1;
    }
    assert(out@ =~= rescaled(v@, by));
    out
}

fn half(v: i64) -> (r: i64)
    ensures
        r == v as int / 2,
{
    proof {
        crate::util::lemma_shr_i64(v, 1);
        lemma2_to64();
    }
    v >> 1u32
}

/// A ratio is given to the nearest 16384th, and up from the middle, as long as it is within
/// the largest factor; a ratio of one is 16384.
pub proof fn law_ratios_are_to_the_nearest(num: int, den: int)
    requires
        0 <= num,
        0 < den,
    ensures
        scale_of(num, den) <= MAX_SCALE,
        scale_of(num, den) < MAX_SCALE ==> -den <= 2 * (num * 16384 - scale_of(num, den) * den) < den,
        scale_of(den, den) == 16384,
{
    let x = num * 16384 + den / 2;
    let q = x / den;
    vstd::arithmetic::div_mod::lemma_fundamental_div_mod(x, den);
    vstd::arithmetic::div_mod::lemma_mod_bound(x, den);
    assert(den * q == q * den) by (nonlinear_arith);
    assert(den * 16384 == 16384 * den) by (nonlinear_arith);
    vstd::arithmetic::div_mod::lemma_fundamental_div_mod_converse(den * 16384 + den / 2, den, 16384, den / 2);
}

/// A product of factors is rounded to the nearest and lies between the smallest and the
/// largest factor; its order makes no difference, and one changes nothing.
pub proof fn law_products_of_factors(a: int, b: int)
    requires
        0 <= a,
        0 <= b,
    ensures
        1 <= scale_product(a, b) <= MAX_SCALE,
        1 < scale_product(a, b) < MAX_SCALE ==> -16384 <= 2 * (a * b - 16384 * scale_product(a, b)) < 16384,
        scale_product(a, b) == scale_product(b, a),
        1 <= a <= MAX_SCALE ==> scale_product(a, 16384) == a,
{
    assert(a * b == b * a) by (nonlinear_arith);
}

/// A segment moves the quantizer by its own delta, where it has one, and no further than a
/// byte holds.
pub proof fn law_segments_move_the_quantizer(s: SegmentationState, base: int, sidx: int)
    requires
        0 <= base <= 255,
        0 <= sidx < 8,
    ensures
        ({
            let q = segment_qidx(s, base, sidx);
            let moved = base + s.data@[sidx]@[0];
            &&& 0 <= q <= 255
            &&& !s.features@[sidx]@[0] ==> q == base
            &&& s.features@[sidx]@[0] && 0 <= moved <= 255 ==> q == moved
            &&& s.features@[sidx]@[0] && moved < 0 ==> q == 0
            &&& s.features@[sidx]@[0] && moved > 255 ==> q == 255
        }),
{
}

/// A record of scales holds each in its place, whichever the byte order: the number of a
/// place is that of its bytes read from one end or from the other.
pub proof fn law_records_hold_their_numbers(s: Seq<u8>, head: Seq<u64>, values: Seq<u32>, n: int, k: int)
    requires
        is_record(s, head, values, n),
        0 <= k < n <= values.len(),
    ensures
        ({
            let place = s.subrange(8 * head.len() + 4 * k, 8 * head.len() + 4 * k + 4);
            let (a, b, c, d) = (place[0] as int, place[1] as int, place[2] as int, place[3] as int);
            ||| values[k] == a + 256 * b + 65536 * c + 16777216 * d
            ||| values[k] == d + 256 * c + 65536 * b + 16777216 * a
        }),
{
    let place = s.subrange(8 * head.len() + 4 * k, 8 * head.len() + 4 * k + 4);
    assert(holds_number(place, values[k] as int, 4));
    reveal_with_fuel(low_first, 5);
    lemma_low_first_len(values[k] as int, 4);
    let v = values[k] as int;
    assert(((v / 256) / 256) / 256 < 256);
}

} // verus!
