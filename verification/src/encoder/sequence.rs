//! Sequence-wide settings, the search for a tiling, and distances between order
//! hints.

use vstd::arithmetic::div_mod::*;
use vstd::arithmetic::power2::*;
use vstd::prelude::*;

use crate::partition::ChromaSampling;
use crate::util::{floor_log2, lemma_floor_log2_below, lemma_one_shl_i64, ulog2};

verus! {

pub const FRAME_ID_LENGTH: u32 = 15;

pub const DELTA_FRAME_ID_LENGTH: u32 = 14;

/// Where chroma samples lie between luma samples.
#[derive(Clone, Copy, Debug, PartialEq, Eq, Structural)]
pub enum ChromaSamplePosition {
    Unknown,
    Vertical,
    Colocated,
}

/// The range of sample values in use.
#[derive(Clone, Copy, Debug, PartialEq, Eq, Structural)]
pub enum PixelRange {
    Limited,
    Full,
}

/// What the encoder is tuned for.
#[derive(Clone, Copy, Debug, PartialEq, Eq, Structural)]
pub enum Tune {
    Psnr,
    Psychovisual,
}

impl Default for Tune {
    fn default() -> (r: Self)
        ensures
            r == Tune::Psychovisual,
    {
        Tune::Psychovisual
    }
}

/// Code points of the colour space.
#[derive(Clone, Copy, Debug, PartialEq, Eq, Structural)]
pub struct ColorDescription {
    pub color_primaries: u8,
    pub transfer_characteristics: u8,
    pub matrix_coefficients: u8,
}

/// The mastering display's white point and luminance.
#[derive(Clone, Copy, Debug, PartialEq, Eq, Structural)]
pub struct MasteringDisplay {
    pub white_point_x: u16,
    pub white_point_y: u16,
    pub max_luminance: u32,
    pub min_luminance: u32,
}

/// The content's light levels.
#[derive(Clone, Copy, Debug, PartialEq, Eq, Structural)]
pub struct ContentLight {
    pub max_content_light_level: u16,
    pub max_frame_average_light_level: u16,
}

/// A ratio of two integers.
#[derive(Clone, Copy, Debug, PartialEq, Eq, Structural)]
pub struct Rational {
    pub num: u64,
    pub den: u64,
}

/// How a frame is cut into tiles.
#[derive(Clone, Copy, Debug, PartialEq, Eq, Structural)]
pub struct TilingInfo {
    pub tile_width_sb: usize,
    pub tile_height_sb: usize,
    pub cols: usize,
    pub rows: usize,
    pub tile_cols_log2: usize,
    pub tile_rows_log2: usize,
    pub max_tile_cols_log2: usize,
    pub max_tile_rows_log2: usize,
    pub sb_size_log2: usize,
}

/// What a sequence is made from.
#[derive(Clone, Copy, Debug, PartialEq, Eq, Structural)]
pub struct SequenceConfig {
    pub width: usize,
    pub height: usize,
    pub time_base: Rational,
    pub bit_depth: usize,
    pub chroma_sampling: ChromaSampling,
    pub chroma_sample_position: ChromaSamplePosition,
    pub pixel_range: PixelRange,
    pub color_description: Option<ColorDescription>,
    pub mastering_display: Option<MasteringDisplay>,
    pub content_light: Option<ContentLight>,
    pub level_idx: Option<u8>,
    pub enable_timing_info: bool,
    pub still_picture: bool,
    /// The number of tiles to reach, or zero.
    pub tiles: usize,
    /// Segments of the film grain table, where there is one.
    pub film_grain_entries: Option<usize>,
    pub cdef: bool,
    pub lrf: bool,
}

/// Sequence-wide settings.
#[derive(Clone, Copy, Debug)]
pub struct Sequence {
    pub profile: u8,
    pub num_bits_width: u32,
    pub num_bits_height: u32,
    pub bit_depth: usize,
    pub chroma_sampling: ChromaSampling,
    pub chroma_sample_position: ChromaSamplePosition,
    pub pixel_range: PixelRange,
    pub color_description: Option<ColorDescription>,
    pub mastering_display: Option<MasteringDisplay>,
    pub content_light: Option<ContentLight>,
    pub max_frame_width: u32,
    pub max_frame_height: u32,
    pub frame_id_numbers_present_flag: bool,
    pub frame_id_length: u32,
    pub delta_frame_id_length: u32,
    pub use_128x128_superblock: bool,
    pub order_hint_bits_minus_1: u32,
    /// Zero forces the tools off, one forces them on, two lets them adapt.
    pub force_screen_content_tools: u32,
    /// Zero forces nothing, one forces whole samples, two adapts.
    pub force_integer_mv: u32,
    pub still_picture: bool,
    pub reduced_still_picture_hdr: bool,
    pub enable_filter_intra: bool,
    pub enable_intra_edge_filter: bool,
    pub enable_interintra_compound: bool,
    pub enable_masked_compound: bool,
    pub enable_dual_filter: bool,
    pub enable_order_hint: bool,
    pub enable_jnt_comp: bool,
    pub enable_ref_frame_mvs: bool,
    pub enable_warped_motion: bool,
    pub enable_superres: bool,
    pub enable_cdef: bool,
    pub enable_restoration: bool,
    pub enable_large_lru: bool,
    pub enable_delayed_loopfilter_rdo: bool,
    pub operating_points_cnt_minus_1: usize,
    pub operating_point_idc: [u16; 32],
    pub display_model_info_present_flag: bool,
    pub decoder_model_info_present_flag: bool,
    pub level_idx: [u8; 32],
    pub tier: [usize; 32],
    pub film_grain_params_present: bool,
    pub timing_info_present: bool,
    pub tiling: TilingInfo,
    pub time_base: Rational,
}

/// How many bits a value takes.
pub open spec fn bit_length(v: nat) -> nat {
    if v == 0 { 0 } else { floor_log2(v) + 1 }
}

/// How many bits a value takes.
pub fn bits_needed(v: u32) -> (r: u32)
    ensures
        r == bit_length(v as nat),
        r <= 32,
{
    if v == 0 { 0 } else { ulog2(v) as u32 + 1 }
}

/// The profile that the sample format needs: two for twelve bits or half
/// horizontal chroma, one for full chroma, else zero.
pub open spec fn profile_of(bit_depth: usize, cs: ChromaSampling) -> u8 {
    if bit_depth == 12 || cs == ChromaSampling::Cs422 {
        2
    } else if cs == ChromaSampling::Cs444 {
        1
    } else {
        0
    }
}

/// Every entry of an array has the value.
pub open spec fn all_are<A>(s: Seq<A>, v: A) -> bool {
    forall|i: int| 0 <= i < s.len() ==> #[trigger] s[i] == v
}

impl Sequence {
    /// The settings are those that the configuration and the tiling give.
    pub open spec fn follows(self, c: SequenceConfig, tiling: TilingInfo) -> bool {
        let large_enough = c.width >= 32 && c.height >= 32;
        &&& self.tiling == tiling
        &&& self.profile == profile_of(c.bit_depth, c.chroma_sampling)
        &&& self.num_bits_width == bit_length(c.width as nat)
        &&& self.num_bits_height == bit_length(c.height as nat)
        &&& self.bit_depth == c.bit_depth
        &&& self.chroma_sampling == c.chroma_sampling
        &&& self.chroma_sample_position == c.chroma_sample_position
        &&& self.pixel_range == c.pixel_range
        &&& self.color_description == c.color_description
        &&& self.mastering_display == c.mastering_display
        &&& self.content_light == c.content_light
        &&& self.max_frame_width == c.width
        &&& self.max_frame_height == c.height
        &&& !self.frame_id_numbers_present_flag
        &&& self.frame_id_length == 15
        &&& self.delta_frame_id_length == 14
        &&& !self.use_128x128_superblock
        &&& self.order_hint_bits_minus_1 == 5
        &&& self.force_screen_content_tools == if c.still_picture { 2int } else { 0 }
        &&& self.force_integer_mv == 2
        &&& self.still_picture == c.still_picture
        &&& self.reduced_still_picture_hdr == c.still_picture
        &&& self.enable_order_hint == !c.still_picture
        &&& self.enable_cdef == (c.cdef && large_enough)
        &&& self.enable_restoration == (c.lrf && large_enough)
        &&& self.enable_intra_edge_filter
        &&& self.enable_large_lru
        &&& self.enable_delayed_loopfilter_rdo
        &&& self.has_no_optional_tools()
        &&& self.operating_points_cnt_minus_1 == 0
        &&& all_are(self.operating_point_idc@, 0u16)
        &&& all_are(self.level_idx@, match c.level_idx {
            Some(l) => l,
            None => 31u8,
        })
        &&& all_are(self.tier@, 0usize)
        &&& self.film_grain_params_present == (c.film_grain_entries matches Some(n) && n > 0)
        &&& self.timing_info_present == c.enable_timing_info
        &&& self.time_base == c.time_base
    }

    /// None of the tools is enabled that the encoder does not use.
    pub open spec fn has_no_optional_tools(self) -> bool {
        &&& !self.enable_filter_intra
        &&& !self.enable_interintra_compound
        &&& !self.enable_masked_compound
        &&& !self.enable_dual_filter
        &&& !self.enable_jnt_comp
        &&& !self.enable_ref_frame_mvs
        &&& !self.enable_warped_motion
        &&& !self.enable_superres
        &&& !self.display_model_info_present_flag
        &&& !self.decoder_model_info_present_flag
    }

    /// The settings of a sequence, given its tiling.
    pub fn new(config: &SequenceConfig, tiling: TilingInfo) -> (r: Sequence)
        requires
            config.width < 65536,
            config.height < 65536,
        ensures
            r.follows(*config, tiling),
            r.num_bits_width <= 16,
            r.num_bits_height <= 16,
    {
        let width_bits: u32 = bits_needed(config.width as u32);
        let height_bits: u32 = bits_needed(config.height as u32);
        proof {
            lemma2_to64();
            if config.width > 0 {
                lemma_floor_log2_below(config.width as nat, 16);
            }
            if config.height > 0 {
                lemma_floor_log2_below(config.height as nat, 16);
            }
        }
        let profile: u8 = if config.bit_depth == 12 || config.chroma_sampling == ChromaSampling::Cs422 {
            2
        } else if config.chroma_sampling == ChromaSampling::Cs444 {
            1
        } else {
            0
        };
        let level: u8 = match config.level_idx {
            Some(l) => l,
            None => 31,
        };
        let enable_restoration_filters: bool = config.width >= 32 && config.height >= 32;
        let film_grain_params_present: bool = match config.film_grain_entries {
            Some(n) => n > 0,
            None => false,
        };
        Sequence {
            tiling,
            profile,
            num_bits_width: width_bits,
            num_bits_height: height_bits,
            bit_depth: config.bit_depth,
            chroma_sampling: config.chroma_sampling,
            chroma_sample_position: config.chroma_sample_position,
            pixel_range: config.pixel_range,
            color_description: config.color_description,
            mastering_display: config.mastering_display,
            content_light: config.content_light,
            max_frame_width: config.width as u32,
            max_frame_height: config.height as u32,
            frame_id_numbers_present_flag: false,
            frame_id_length: FRAME_ID_LENGTH,
            delta_frame_id_length: DELTA_FRAME_ID_LENGTH,
            use_128x128_superblock: false,
            order_hint_bits_minus_1: 5,
            force_screen_content_tools: if config.still_picture { 2 } else { 0 },
            force_integer_mv: 2,
            still_picture: config.still_picture,
            reduced_still_picture_hdr: config.still_picture,
            enable_filter_intra: false,
            enable_intra_edge_filter: true,
            enable_interintra_compound: false,
            enable_masked_compound: false,
            enable_dual_filter: false,
            enable_order_hint: !config.still_picture,
            enable_jnt_comp: false,
            enable_ref_frame_mvs: false,
            enable_warped_motion: false,
            enable_superres: false,
            enable_cdef: config.cdef && enable_restoration_filters,
            enable_restoration: config.lrf && enable_restoration_filters,
            enable_large_lru: true,
            enable_delayed_loopfilter_rdo: true,
            operating_points_cnt_minus_1: 0,
            operating_point_idc: [0; 32],
            display_model_info_present_flag: false,
            decoder_model_info_present_flag: false,
            level_idx: [level; 32],
            tier: [0; 32],
            film_grain_params_present,
            timing_info_present: config.enable_timing_info,
            time_base: config.time_base,
        }
    }

    /// The base two logarithm of a superblock's side.
    pub fn sb_size_log2(use_128x128_superblock: bool) -> (r: usize)
        ensures
            r == if use_128x128_superblock { 7int } else { 6 },
    {
        if use_128x128_superblock { 7 } else { 6 }
    }

    /// The signed distance from `b` to `a`.
    pub fn get_relative_dist(&self, a: u32, b: u32) -> (r: i32)
        requires
            self.order_hint_bits_minus_1 <= 29,
        ensures
            r == relative_dist(self.order_hint_bits_minus_1 as nat, a as int, b as int),
    {
        let k: u32 = self.order_hint_bits_minus_1;
        proof {
            lemma_one_shl_i64(k);
            lemma2_to64();
            if k < 29 {
                lemma_pow2_strictly_increases(k as nat, 29);
            }
        }
        let m: u64 = (1i64 << k) as u64;
        let period: u64 = 2 * m;
        let low: u64 = b as u64 % period;
        let d: u64 = (a as u64 + period - low) % period;
        proof {
            let p = period as int;
            lemma_fundamental_div_mod(b as int, p);
            let q = b as int / p;
            assert(a + p - low == (a - b) + p * (q + 1)) by (nonlinear_arith)
                requires b as int == p * q + low;
            lemma_mod_multiples_vanish(q + 1, a - b, p);
            lemma_mul_comm(p, q + 1);
        }
        if d < m { d as i32 } else { d as i32 - period as i32 }
    }
}

proof fn lemma_mul_comm(a: int, b: int)
    ensures
        a * b == b * a,
{
    assert(a * b == b * a) by (nonlinear_arith);
}

/// The signed distance between two order hints that count modulo
/// `2^(bits_minus_1 + 1)`: the difference brought into the half-open range around
/// zero.
pub open spec fn relative_dist(bits_minus_1: nat, a: int, b: int) -> int {
    let m = pow2(bits_minus_1) as int;
    let d = (a - b) % (2 * m);
    if d < m { d } else { d - 2 * m }
}

/// A hint is at distance zero from itself, distances lie in the half-open range
/// around zero, and going back reverses the sign, but for the far end of the
/// range, which is its own opposite.
pub proof fn law_relative_distance(bits_minus_1: nat, a: int, b: int)
    ensures
        relative_dist(bits_minus_1, a, a) == 0,
        -(pow2(bits_minus_1) as int) <= relative_dist(bits_minus_1, a, b) < pow2(bits_minus_1),
        relative_dist(bits_minus_1, a, b) != -(pow2(bits_minus_1) as int) ==> relative_dist(bits_minus_1, b, a) == -relative_dist(
            bits_minus_1,
            a,
            b,
        ),
{
    let m = pow2(bits_minus_1) as int;
    let p = 2 * m;
    lemma_pow2_pos(bits_minus_1);
    lemma_mod_bound(a - b, p);
    lemma_mod_bound(b - a, p);
    let q = (a - b) / p;
    let d = (a - b) % p;
    lemma_fundamental_div_mod(a - b, p);
    lemma_small_mod(0, p as nat);
    if d == 0 {
        assert(b - a == (-q) * p + 0) by (nonlinear_arith)
            requires a - b == p * q;
        lemma_fundamental_div_mod_converse(b - a, p, -q, 0);
    } else {
        assert(b - a == (-q - 1) * p + (p - d)) by (nonlinear_arith)
            requires a - b == p * q + d;
        lemma_fundamental_div_mod_converse(b - a, p, -q - 1, p - d);
    }
}

/// The hint of the nearest earlier reference among the first `n` slots, in the
/// order they are visited; a later slot takes over only where it is nearer.
pub open spec fn nearest_earlier(bits: nat, hints: Seq<Option<u32>>, now: int, n: int) -> Option<u32>
    decreases n,
{
    if n <= 0 {
        None
    } else {
        let before = nearest_earlier(bits, hints, now, n - 1);
        match hints[n - 1] {
            Some(h) if relative_dist(bits, h as int, now) < 0 && (before matches Some(f) ==> relative_dist(bits, h as int, f as int) > 0) => Some(h),
            _ => before,
        }
    }
}

/// A slot holds a reference at a distance of the given sign from `from`.
pub open spec fn some_reference(bits: nat, hints: Seq<Option<u32>>, from: int, later: bool) -> bool {
    exists|i: int| 0 <= i < hints.len() && (#[trigger] hints[i] matches Some(h) && (if later {
        relative_dist(bits, h as int, from) > 0
    } else {
        relative_dist(bits, h as int, from) < 0
    }))
}

/// Blocks may skip both residual and motion: there are references on both sides
/// in time, or two earlier ones.
pub open spec fn skip_mode_allowed(bits: nat, hints: Seq<Option<u32>>, now: int) -> bool {
    match nearest_earlier(bits, hints, now, hints.len() as int) {
        None => false,
        Some(f) => some_reference(bits, hints, now, true) || some_reference(bits, hints, f as int, false),
    }
}

impl Sequence {
    /// Whether some slot holds a reference at a distance of the given sign.
    fn has_reference(&self, hints: &[Option<u32>], from: u32, later: bool) -> (r: bool)
        requires
            self.order_hint_bits_minus_1 <= 29,
        ensures
            r == some_reference(self.order_hint_bits_minus_1 as nat, hints@, from as int, later),
    {
        let mut i: usize = 0;
        while i < hints.len()
            invariant
                i <= hints.len(),
                self.order_hint_bits_minus_1 <= 29,
                forall|k: int| 0 <= k < i ==> !(#[trigger] hints@[k] matches Some(h) && (if later {
                    relative_dist(self.order_hint_bits_minus_1 as nat, h as int, from as int) > 0
                } else {
                    relative_dist(self.order_hint_bits_minus_1 as nat, h as int, from as int) < 0
                })),
            decreases hints.len() - i,
        {
            if let Some(h) = hints[i] {
                let d: i32 = self.get_relative_dist(h, from);
                if (later && d > 0) || (!later && d < 0) {
                    assert(hints@[i as int] matches Some(h));
                    return true;
                }
            }
            i = i + 1;
        }
        false
    }

    /// Whether blocks of a frame may skip both residual and motion. `hints` are
    /// the order hints of the allowed references, in the order of their types,
    /// where the slot holds a frame.
    pub fn get_skip_mode_allowed(&self, intra_only: bool, order_hint: u32, hints: &[Option<u32>], reference_select: bool) -> (r: bool)
        requires
            self.order_hint_bits_minus_1 <= 29,
        ensures
            r == (!intra_only && reference_select && self.enable_order_hint && skip_mode_allowed(
                self.order_hint_bits_minus_1 as nat,
                hints@,
                order_hint as int,
            )),
    {
        if intra_only || !reference_select || !self.enable_order_hint {
            return false;
        }
        let mut forward: Option<u32> = None;
        let mut i: usize = 0;
        while i < hints.len()
            invariant
                i <= hints.len(),
                self.order_hint_bits_minus_1 <= 29,
                forward == nearest_earlier(self.order_hint_bits_minus_1 as nat, hints@, order_hint as int, i as int),
            decreases hints.len() - i,
        {
            if let Some(h) = hints[i] {
                if self.get_relative_dist(h, order_hint) < 0 {
                    match forward {
                        None => {
                            forward = Some(h);
                        },
                        Some(f) => {
                            if self.get_relative_dist(h, f) > 0 {
                                forward = Some(h);
                            }
                        },
                    }
                }
            }
            i = i + 1;
        }
        match forward {
            None => false,
            Some(f) => self.has_reference(hints, order_hint, true) || self.has_reference(hints, f, false),
        }
    }
}

/// The search for a tiling with enough tiles: the subdivision that was last asked
/// for, if any.
#[derive(Clone, Copy, Debug, PartialEq, Eq, Structural)]
pub struct TileSearch {
    pub tile_cols_log2: usize,
    pub tile_rows_log2: usize,
    pub asked: bool,
}

/// The next step of the search.
#[derive(Clone, Copy, Debug, PartialEq, Eq, Structural)]
pub enum TileStep {
    /// Lay out the frame with these subdivisions and report the tiling.
    Ask { tile_cols_log2: usize, tile_rows_log2: usize },
    /// The tiling that was reported last is the one.
    Done,
}

impl TileSearch {
    /// The subdivision after one that gave too few tiles: rows where tiles are at
    /// least as high as wide and can still be cut, or columns are exhausted.
    pub open spec fn refined(self, t: TilingInfo) -> TileSearch {
        if !self.asked {
            self
        } else if (t.tile_height_sb >= t.tile_width_sb && t.tile_rows_log2 < t.max_tile_rows_log2) || self.tile_cols_log2 >= t.max_tile_cols_log2 {
            TileSearch { tile_rows_log2: (self.tile_rows_log2 + 1) as usize, ..self }
        } else {
            TileSearch { tile_cols_log2: (self.tile_cols_log2 + 1) as usize, ..self }
        }
    }

    /// The search is over: no number of tiles is wanted, the layout that was asked
    /// for has enough, or no finer one is left.
    pub open spec fn is_over(self, t: TilingInfo, tiles: int) -> bool {
        let next = self.refined(t);
        ||| tiles == 0
        ||| self.asked && t.rows * t.cols >= tiles
        ||| next.tile_rows_log2 >= t.max_tile_rows_log2 && next.tile_cols_log2 >= t.max_tile_cols_log2
    }

    /// The search before anything was asked.
    pub fn new() -> (r: TileSearch)
        ensures
            r == (TileSearch { tile_cols_log2: 0, tile_rows_log2: 0, asked: false }),
    {
        TileSearch { tile_cols_log2: 0, tile_rows_log2: 0, asked: false }
    }

    /// Takes the tiling that was laid out last and says what to do next. The first
    /// tiling is the one of the configured rows and columns.
    pub fn next(&mut self, tiling: &TilingInfo, tiles: usize) -> (r: TileStep)
        requires
            tiling.rows * tiling.cols <= usize::MAX,
            old(self).tile_rows_log2 < usize::MAX,
            old(self).tile_cols_log2 < usize::MAX,
        ensures
            old(self).is_over(*tiling, tiles as int) <==> r == TileStep::Done,
            r matches TileStep::Ask { tile_cols_log2, tile_rows_log2 } ==> {
                let next = old(self).refined(*tiling);
                &&& *final(self) == (TileSearch { asked: true, ..next })
                &&& tile_cols_log2 == next.tile_cols_log2
                &&& tile_rows_log2 == next.tile_rows_log2
            },
            r == TileStep::Done ==> *final(self) == *old(self),
    {
        if tiles == 0 {
            return TileStep::Done;
        }
        let mut rows: usize = self.tile_rows_log2;
        let mut cols: usize = self.tile_cols_log2;
        if self.asked {
            if tiling.rows * tiling.cols >= tiles {
                return TileStep::Done;
            }
            if (tiling.tile_height_sb >= tiling.tile_width_sb && tiling.tile_rows_log2 < tiling.max_tile_rows_log2) || cols >= tiling.max_tile_cols_log2 {
                rows = rows + 1;
            } else {
                cols = cols + 1;
            }
        }
        if rows < tiling.max_tile_rows_log2 || cols < tiling.max_tile_cols_log2 {
            self.tile_rows_log2 = rows;
            self.tile_cols_log2 = cols;
            self.asked = true;
            TileStep::Ask { tile_cols_log2: cols, tile_rows_log2: rows }
        } else {
            TileStep::Done
        }
    }
}

/// Each step of the search cuts the frame once more, in one direction, so that it
/// ends once both directions are exhausted.
pub proof fn law_tile_search_advances(s: TileSearch, t: TilingInfo)
    requires
        s.asked,
        s.tile_rows_log2 < usize::MAX,
        s.tile_cols_log2 < usize::MAX,
    ensures
        s.refined(t).tile_rows_log2 + s.refined(t).tile_cols_log2 == s.tile_rows_log2 + s.tile_cols_log2 + 1,
        s.refined(t).tile_rows_log2 >= s.tile_rows_log2,
        s.refined(t).tile_cols_log2 >= s.tile_cols_log2,
{
}

/// A value takes as many bits as the next power of two above it has.
pub proof fn law_bit_lengths(v: nat)
    ensures
        bit_length(0) == 0,
        v > 0 ==> bit_length(v) > 0 && pow2((bit_length(v) - 1) as nat) <= v < pow2(bit_length(v)),
{
    if v > 0 {
        crate::util::lemma_floor_log2(v);
    }
}

/// The profile of each sample format.
pub proof fn law_profiles_of_formats(bit_depth: usize, cs: ChromaSampling)
    requires
        bit_depth == 8 || bit_depth == 10 || bit_depth == 12,
    ensures
        bit_depth == 12 ==> profile_of(bit_depth, cs) == 2,
        cs == ChromaSampling::Cs422 ==> profile_of(bit_depth, cs) == 2,
        bit_depth <= 10 && cs == ChromaSampling::Cs444 ==> profile_of(bit_depth, cs) == 1,
        bit_depth <= 10 && (cs == ChromaSampling::Cs420 || cs == ChromaSampling::Cs400) ==> profile_of(bit_depth, cs) == 0,
{
}

/// Hints that are less than half the range apart are at their difference, and a hint that
/// has come round once is where it was.
pub proof fn law_near_hints_are_at_their_difference(bits_minus_1: nat, a: int, b: int)
    ensures
        -(pow2(bits_minus_1) as int) <= a - b < pow2(bits_minus_1) ==> relative_dist(bits_minus_1, a, b) == a - b,
        relative_dist(bits_minus_1, a + 2 * pow2(bits_minus_1), b) == relative_dist(bits_minus_1, a, b),
        relative_dist(bits_minus_1, a, b + 2 * pow2(bits_minus_1)) == relative_dist(bits_minus_1, a, b),
{
    let m = pow2(bits_minus_1) as int;
    let p = 2 * m;
    lemma_pow2_pos(bits_minus_1);
    let d = a - b;
    if 0 <= d < m {
        lemma_fundamental_div_mod_converse(d, p, 0, d);
    } else if -m <= d < 0 {
        lemma_fundamental_div_mod_converse(d, p, -1, d + p);
    }
    lemma_fundamental_div_mod(d, p);
    lemma_mod_bound(d, p);
    let q = d / p;
    let r = d % p;
    assert(d + p == (q + 1) * p + r && d - p == (q - 1) * p + r) by (nonlinear_arith)
        requires d == p * q + r;
    lemma_fundamental_div_mod_converse(d + p, p, q + 1, r);
    lemma_fundamental_div_mod_converse(d - p, p, q - 1, r);
}

/// The hints of references that lie within a quarter of the range of a frame.
pub open spec fn hints_near(bits: nat, hints: Seq<Option<u32>>, now: int) -> bool {
    forall|i: int| 0 <= i < hints.len() ==> (#[trigger] hints[i] matches Some(h) ==> -(pow2(bits) as int) <= 2 * (h - now) < pow2(bits))
}

/// Among references near a frame, the nearest earlier one has the greatest hint below the
/// frame's.
pub proof fn law_nearest_earlier_is_the_greatest_below(bits: nat, hints: Seq<Option<u32>>, now: int, n: int)
    requires
        0 <= n <= hints.len(),
        hints_near(bits, hints, now),
    ensures
        match nearest_earlier(bits, hints, now, n) {
            Some(f) => {
                &&& f < now
                &&& exists|i: int| 0 <= i < n && #[trigger] hints[i] == Some(f)
                &&& forall|i: int| 0 <= i < n ==> (#[trigger] hints[i] matches Some(h) ==> h < now ==> h <= f)
            },
            None => forall|i: int| 0 <= i < n ==> (#[trigger] hints[i] matches Some(h) ==> h >= now),
        },
    decreases n,
{
    if n > 0 {
        law_nearest_earlier_is_the_greatest_below(bits, hints, now, n - 1);
        let before = nearest_earlier(bits, hints, now, n - 1);
        if let Some(f) = before {
            let i = choose|i: int| 0 <= i < n - 1 && #[trigger] hints[i] == Some(f);
            assert(hints[i] == Some(f));
            if let Some(h) = hints[n - 1] {
                law_near_hints_are_at_their_difference(bits, h as int, now);
                law_near_hints_are_at_their_difference(bits, h as int, f as int);
            }
        } else if let Some(h) = hints[n - 1] {
            law_near_hints_are_at_their_difference(bits, h as int, now);
        }
        assert(hints[n - 1] == hints[n - 1]);
    }
}

/// Both residual and motion may be skipped where there is an earlier reference and besides
/// a later one, or one before the nearest earlier.
pub proof fn law_skipping_needs_two_references(bits: nat, hints: Seq<Option<u32>>, now: int)
    requires
        hints_near(bits, hints, now),
    ensures
        skip_mode_allowed(bits, hints, now) <==> exists|i: int, j: int|
            0 <= i < hints.len() && 0 <= j < hints.len() && (#[trigger] hints[i] matches Some(f) && (#[trigger] hints[j] matches Some(g) && f < now && (g > now
                || g < f))),
{
    law_nearest_earlier_is_the_greatest_below(bits, hints, now, hints.len() as int);
    let near = nearest_earlier(bits, hints, now, hints.len() as int);
    assert forall|i: int| 0 <= i < hints.len() && (#[trigger] hints[i]) is Some implies relative_dist(bits, hints[i]->0 as int, now) == hints[i]->0 - now by {
        law_near_hints_are_at_their_difference(bits, hints[i]->0 as int, now);
    }
    if let Some(f) = near {
        let a = choose|i: int| 0 <= i < hints.len() && #[trigger] hints[i] == Some(f);
        assert(hints[a] == Some(f));
        assert forall|i: int| 0 <= i < hints.len() && (#[trigger] hints[i]) is Some implies relative_dist(bits, hints[i]->0 as int, f as int) == hints[i]->0 - f by {
            law_near_hints_are_at_their_difference(bits, hints[i]->0 as int, f as int);
        }
        if some_reference(bits, hints, now, true) {
            let j = choose|i: int| 0 <= i < hints.len() && (#[trigger] hints[i] matches Some(h) && relative_dist(bits, h as int, now) > 0);
            assert(hints[a] is Some && hints[j] is Some);
        }
        if some_reference(bits, hints, f as int, false) {
            let j = choose|i: int| 0 <= i < hints.len() && (#[trigger] hints[i] matches Some(h) && relative_dist(bits, h as int, f as int) < 0);
            assert(hints[a] is Some && hints[j] is Some);
        }
        if exists|i: int, j: int|
            0 <= i < hints.len() && 0 <= j < hints.len() && (#[trigger] hints[i] matches Some(f) && (#[trigger] hints[j] matches Some(g) && f < now && (g > now
                || g < f))) {
            let (i, j) = choose|i: int, j: int|
                0 <= i < hints.len() && 0 <= j < hints.len() && (#[trigger] hints[i] matches Some(f) && (#[trigger] hints[j] matches Some(g) && f < now && (g
                    > now || g < f)));
            assert(hints[i]->0 <= f);
            if hints[j]->0 > now {
                assert(some_reference(bits, hints, now, true));
            } else {
                assert(hints[j]->0 < f);
                assert(some_reference(bits, hints, f as int, false));
            }
        }
    }
}

/// The search for a tiling cuts what is longer: rows where tiles are at least as high as
/// wide and rows are left, and columns otherwise as long as there are any. It is over only
/// where no number is wanted, the layout has enough tiles, or nothing is left to cut.
pub proof fn law_longer_side_is_cut(s: TileSearch, t: TilingInfo, tiles: int)
    requires
        s.tile_rows_log2 < usize::MAX,
        s.tile_cols_log2 < usize::MAX,
    ensures
        ({
            let r = s.refined(t);
            let rows_left = t.tile_rows_log2 < t.max_tile_rows_log2;
            let cols_left = s.tile_cols_log2 < t.max_tile_cols_log2;
            &&& !s.asked ==> r == s
            &&& s.asked && t.tile_height_sb >= t.tile_width_sb && rows_left ==> r.tile_rows_log2 == s.tile_rows_log2 + 1
            &&& s.asked && t.tile_height_sb < t.tile_width_sb && cols_left ==> r.tile_cols_log2 == s.tile_cols_log2 + 1
            &&& s.asked && !rows_left && cols_left ==> r.tile_cols_log2 == s.tile_cols_log2 + 1
            &&& s.asked && !cols_left ==> r.tile_rows_log2 == s.tile_rows_log2 + 1
            &&& tiles == 0 ==> s.is_over(t, tiles)
            &&& s.asked && t.rows * t.cols >= tiles ==> s.is_over(t, tiles)
            &&& s.is_over(t, tiles) && tiles > 0 && (!s.asked || t.rows * t.cols < tiles) ==> r.tile_rows_log2 >= t.max_tile_rows_log2 && r.tile_cols_log2
                >= t.max_tile_cols_log2
        }),
{
}

} // verus!
