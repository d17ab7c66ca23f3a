//! What is invariant inside a frame: its header, its references and where it
//! stands in the group of frames.

use vstd::arithmetic::power2::*;
use std::sync::Arc;
use vstd::prelude::*;
use vstd::string::*;

use crate::encoder::block::EncoderStats;
use crate::encoder::partition_search::PartitionRange;
use crate::encoder::segmentation::{CodedFrameData, SegmentationState};
use crate::encoder::sequence::{relative_dist, Sequence, Tune};
use crate::mc::FilterMode;
use crate::partition::RefType;
use crate::plane::{Frame, Plane, PlaneConfig};
use crate::text::{push_number, written_number};
use crate::util::{imin, trunc8, truncate_i8};

verus! {

/// References of a frame.
pub const INTER_REFS_PER_FRAME: usize = 7;

/// Slots for reference frames.
pub const REF_FRAMES: usize = 8;

/// No reference is the primary one.
pub const PRIMARY_REF_NONE: u32 = 7;

/// Every slot.
pub const ALL_REF_FRAMES_MASK: u32 = 255;

/// Units of a timestamp in a second.
pub const TIMESTAMP_BASE_UNIT: u64 = 10_000_000;

/// The kind of a frame.
#[allow(non_camel_case_types)]
#[derive(Clone, Copy, Debug, PartialEq, Eq, Structural)]
pub enum FrameType {
    KEY,
    INTER,
    INTRA_ONLY,
    SWITCH,
}

impl FrameType {
    /// Blocks may be predicted from other frames.
    pub fn has_inter(self) -> (r: bool)
        ensures
            r == (self == FrameType::INTER || self == FrameType::SWITCH),
    {
        self == FrameType::INTER || self == FrameType::SWITCH
    }
}

/// How many references a block may have.
#[derive(Clone, Copy, Debug, PartialEq, Eq, Structural)]
pub enum ReferenceMode {
    SINGLE,
    COMPOUND,
    SELECT,
}

/// How the strengths of the directional filter are found.
#[derive(Clone, Copy, Debug, PartialEq, Eq, Structural)]
pub enum CDEFSearchMethod {
    PickFromQ,
    FastSearch,
    FullSearch,
}

/// The global motion of a reference.
#[derive(Clone, Copy, Debug, PartialEq, Eq, Structural)]
pub enum GlobalMVMode {
    IDENTITY,
    TRANSLATION,
    ROTZOOM,
    AFFINE,
}

/// Levels and deltas of the deblocking filter.
#[derive(Clone, Copy, Debug)]
pub struct DeblockState {
    /// Luma vertical and horizontal edges, then each chroma plane.
    pub levels: [u8; 4],
    pub sharpness: u8,
    pub deltas_enabled: bool,
    pub delta_updates_enabled: bool,
    pub ref_deltas: [i8; 8],
    pub mode_deltas: [i8; 2],
    pub block_deltas_enabled: bool,
    pub block_delta_shift: u8,
    pub block_delta_multi: bool,
}

impl DeblockState {
    /// Light filtering without deltas.
    pub open spec fn is_default(self) -> bool {
        &&& self.levels@ =~= seq![8u8, 8, 4, 4]
        &&& self.sharpness == 0
        &&& !self.deltas_enabled
        &&& !self.delta_updates_enabled
        &&& self.ref_deltas@.len() == 8
        &&& self.ref_deltas@[0] == 1
        &&& forall|i: int| 1 <= i < 5 ==> #[trigger] self.ref_deltas@[i] == 0
        &&& forall|i: int| 5 <= i < 8 ==> #[trigger] self.ref_deltas@[i] == -1
        &&& self.mode_deltas@ =~= seq![0i8, 0]
        &&& !self.block_deltas_enabled
        &&& self.block_delta_shift == 0
        &&& !self.block_delta_multi
    }
}

impl Default for DeblockState {
    /// Light filtering without deltas.
    fn default() -> (r: Self)
        ensures
            r.is_default(),
    {
        DeblockState {
            levels: [8, 8, 4, 4],
            sharpness: 0,
            deltas_enabled: false,
            delta_updates_enabled: false,
            ref_deltas: [1, 0, 0, 0, 0, -1, -1, -1],
            mode_deltas: [0, 0],
            block_deltas_enabled: false,
            block_delta_shift: 0,
            block_delta_multi: false,
        }
    }
}

/// A frame that others are predicted from. `buffer` names the samples,
/// probabilities and motion that are kept with it.
#[derive(Clone, Copy, Debug)]
pub struct ReferenceFrame {
    pub order_hint: u32,
    pub width: u32,
    pub height: u32,
    pub render_width: u32,
    pub render_height: u32,
    pub output_frameno: u64,
    pub segmentation: SegmentationState,
    pub buffer: usize,
}

/// The slots for reference frames.
#[derive(Clone, Copy, Debug)]
pub struct ReferenceFramesSet {
    pub frames: [Option<ReferenceFrame>; 8],
    pub deblock: [DeblockState; 8],
}

impl ReferenceFramesSet {
    /// Every slot is empty.
    pub open spec fn is_empty(self) -> bool {
        &&& forall|i: int| 0 <= i < 8 ==> #[trigger] self.frames@[i] is None
        &&& forall|i: int| 0 <= i < 8 ==> (#[trigger] self.deblock@[i]).is_default()
    }

    /// Empty slots.
    pub fn new() -> (r: Self)
        ensures
            r.is_empty(),
    {
        let d: DeblockState = DeblockState::default();
        ReferenceFramesSet { frames: [None; 8], deblock: [d; 8] }
    }
}

/// What a frame's header is made from, besides its sequence.
#[derive(Clone, Copy, Debug, PartialEq, Eq, Structural)]
pub struct FrameConfig {
    pub width: usize,
    pub height: usize,
    pub render_width: usize,
    pub render_height: usize,
    pub tune: Tune,
    pub quantizer: u8,
    pub reduced_tx_set: bool,
    pub tx_domain_rate: bool,
    pub tx_domain_distortion: bool,
    pub rdo_tx_decision: bool,
    pub enable_inter_tx_split: bool,
    pub partition_range: PartitionRange,
    pub segmentation: bool,
    /// Rates of trials are estimated from the distortion of coefficients.
    pub txrate: bool,
    /// Partition trials run to their end.
    pub no_early_exit: bool,
}

/// The scalar part of what is invariant inside a frame.
#[derive(Clone, Copy, Debug, PartialEq, Eq, Structural)]
pub struct FrameHeader {
    pub width: usize,
    pub height: usize,
    pub render_width: u32,
    pub render_height: u32,
    pub frame_size_override_flag: bool,
    pub render_and_frame_size_different: bool,
    pub sb_width: usize,
    pub sb_height: usize,
    pub w_in_b: usize,
    pub h_in_b: usize,
    pub input_frameno: u64,
    pub order_hint: u32,
    pub show_frame: bool,
    pub showable_frame: bool,
    pub error_resilient: bool,
    pub intra_only: bool,
    pub allow_high_precision_mv: bool,
    pub frame_type: FrameType,
    pub frame_to_show_map_idx: u32,
    pub use_reduced_tx_set: bool,
    pub reference_mode: ReferenceMode,
    pub use_prev_frame_mvs: bool,
    pub partition_range: PartitionRange,
    pub num_tg: usize,
    pub large_scale_tile: bool,
    pub disable_cdf_update: bool,
    pub allow_screen_content_tools: u32,
    pub force_integer_mv: u32,
    pub primary_ref_frame: u32,
    pub refresh_frame_flags: u32,
    pub allow_intrabc: bool,
    pub use_ref_frame_mvs: bool,
    pub is_filter_switchable: bool,
    pub is_motion_mode_switchable: bool,
    pub disable_frame_end_update_cdf: bool,
    pub allow_warped_motion: bool,
    pub cdef_search_method: CDEFSearchMethod,
    pub cdef_damping: u8,
    pub cdef_bits: u8,
    pub delta_q_present: bool,
    pub base_q_idx: u8,
    pub me_range_scale: u8,
    pub use_tx_domain_distortion: bool,
    pub use_tx_domain_rate: bool,
    pub idx_in_group_output: u64,
    pub pyramid_level: u64,
    pub enable_early_exit: bool,
    pub tx_mode_select: bool,
    pub enable_inter_txfm_split: bool,
    pub default_filter: FilterMode,
    pub enable_segmentation: bool,
    /// The frame's metadata go out with it.
    pub carries_metadata: bool,
}

/// A stretch of time with its own film grain.
#[derive(Clone, Copy, Debug, PartialEq, Eq, Structural)]
pub struct GrainSegment {
    pub start_time: u64,
    pub end_time: u64,
    pub random_seed: u16,
}

/// What is invariant inside a frame.
pub struct FrameInvariants {
    pub sequence: Sequence,
    pub header: FrameHeader,
    pub globalmv_transformation_type: [GlobalMVMode; 7],
    pub ref_frames: [u8; 7],
    pub ref_frame_sign_bias: [bool; 7],
    pub cdef_y_strengths: [u8; 8],
    pub cdef_uv_strengths: [u8; 8],
    pub dc_delta_q: [i8; 3],
    pub ac_delta_q: [i8; 3],
    pub rec_buffer: ReferenceFramesSet,
    pub film_grain: Vec<GrainSegment>,
    /// Present unless the frame only shows one that is coded already.
    pub coded_frame_data: Option<CodedFrameData>,
}

/// A length in blocks of `2^k` samples, rounded up.
pub open spec fn blocks_of(v: int, side: int) -> int {
    (v + side - 1) / side
}

/// The header of a frame before its place in the sequence is known.
pub open spec fn first_header(c: FrameConfig, s: Sequence) -> FrameHeader {
    let rate = c.tx_domain_rate || c.txrate;
    FrameHeader {
        width: c.width,
        height: c.height,
        render_width: c.render_width as u32,
        render_height: c.render_height as u32,
        frame_size_override_flag: c.width != s.max_frame_width || c.height != s.max_frame_height,
        render_and_frame_size_different: c.render_width != c.width || c.render_height != c.height,
        sb_width: blocks_of(c.width as int, 64) as usize,
        sb_height: blocks_of(c.height as int, 64) as usize,
        w_in_b: (2 * blocks_of(c.width as int, 8)) as usize,
        h_in_b: (2 * blocks_of(c.height as int, 8)) as usize,
        input_frameno: 0,
        order_hint: 0,
        show_frame: true,
        showable_frame: !s.reduced_still_picture_hdr,
        error_resilient: false,
        intra_only: true,
        allow_high_precision_mv: false,
        frame_type: FrameType::KEY,
        frame_to_show_map_idx: 0,
        use_reduced_tx_set: c.reduced_tx_set,
        reference_mode: ReferenceMode::SINGLE,
        use_prev_frame_mvs: false,
        partition_range: c.partition_range,
        num_tg: 1,
        large_scale_tile: false,
        disable_cdf_update: false,
        allow_screen_content_tools: s.force_screen_content_tools,
        force_integer_mv: 1,
        primary_ref_frame: PRIMARY_REF_NONE,
        refresh_frame_flags: ALL_REF_FRAMES_MASK,
        allow_intrabc: false,
        use_ref_frame_mvs: false,
        is_filter_switchable: false,
        is_motion_mode_switchable: false,
        disable_frame_end_update_cdf: s.reduced_still_picture_hdr,
        allow_warped_motion: false,
        cdef_search_method: CDEFSearchMethod::PickFromQ,
        cdef_damping: 3,
        cdef_bits: 0,
        delta_q_present: false,
        base_q_idx: c.quantizer,
        me_range_scale: 1,
        use_tx_domain_distortion: rate || c.tune == Tune::Psnr && c.tx_domain_distortion,
        use_tx_domain_rate: rate,
        idx_in_group_output: 0,
        pyramid_level: 0,
        enable_early_exit: !c.no_early_exit,
        tx_mode_select: false,
        enable_inter_txfm_split: c.enable_inter_tx_split,
        default_filter: FilterMode::REGULAR,
        enable_segmentation: c.segmentation,
        carries_metadata: false,
    }
}

/// The strengths that a frame starts from.
pub open spec fn first_strengths() -> Seq<u8> {
    seq![0u8, 4, 9, 13, 22, 31, 43, 55]
}

impl FrameInvariants {
    /// The frame can be laid out: sizes stay in range.
    pub open spec fn config_ok(c: FrameConfig) -> bool {
        &&& c.width <= 0x10000
        &&& c.height <= 0x10000
        &&& c.render_width <= u32::MAX
        &&& c.render_height <= u32::MAX
        &&& blocks_of(c.height as int, 8) * blocks_of(c.width as int, 8) <= usize::MAX
    }

    /// The frame has neither references nor quantizers of its own yet.
    pub open spec fn is_first(&self) -> bool {
        &&& forall|i: int| 0 <= i < 7 ==> #[trigger] self.globalmv_transformation_type@[i] == GlobalMVMode::IDENTITY
        &&& forall|i: int| 0 <= i < 7 ==> #[trigger] self.ref_frames@[i] == 0
        &&& forall|i: int| 0 <= i < 7 ==> !(#[trigger] self.ref_frame_sign_bias@[i])
        &&& self.cdef_y_strengths@ =~= first_strengths()
        &&& self.cdef_uv_strengths@ =~= first_strengths()
        &&& forall|i: int| 0 <= i < 3 ==> #[trigger] self.dc_delta_q@[i] == 0
        &&& forall|i: int| 0 <= i < 3 ==> #[trigger] self.ac_delta_q@[i] == 0
        &&& self.rec_buffer.is_empty()
    }

    /// A frame before its place in the sequence is known. `bits` is how many bits
    /// a sample of its planes holds.
    pub fn new(config: &FrameConfig, sequence: &Sequence, bits: usize, film_grain: Vec<GrainSegment>) -> (r: Self)
        requires
            Self::config_ok(*config),
            sequence.bit_depth <= bits,
        ensures
            r.sequence == *sequence,
            r.header == first_header(*config, *sequence),
            r.is_first(),
            r.film_grain@ == film_grain@,
            r.coded_frame_data is None,
    {
        let rate: bool = config.tx_domain_rate || config.txrate;
        let header: FrameHeader = FrameHeader {
            width: config.width,
            height: config.height,
            render_width: config.render_width as u32,
            render_height: config.render_height as u32,
            frame_size_override_flag: config.width as u32 != sequence.max_frame_width || config.height as u32 != sequence.max_frame_height,
            render_and_frame_size_different: config.render_width != config.width || config.render_height != config.height,
            sb_width: (config.width + 63) / 64,
            sb_height: (config.height + 63) / 64,
            w_in_b: 2 * ((config.width + 7) / 8),
            h_in_b: 2 * ((config.height + 7) / 8),
            input_frameno: 0,
            order_hint: 0,
            show_frame: true,
            showable_frame: !sequence.reduced_still_picture_hdr,
            error_resilient: false,
            intra_only: true,
            allow_high_precision_mv: false,
            frame_type: FrameType::KEY,
            frame_to_show_map_idx: 0,
            use_reduced_tx_set: config.reduced_tx_set,
            reference_mode: ReferenceMode::SINGLE,
            use_prev_frame_mvs: false,
            partition_range: config.partition_range,
            num_tg: 1,
            large_scale_tile: false,
            disable_cdf_update: false,
            allow_screen_content_tools: sequence.force_screen_content_tools,
            force_integer_mv: 1,
            primary_ref_frame: PRIMARY_REF_NONE,
            refresh_frame_flags: ALL_REF_FRAMES_MASK,
            allow_intrabc: false,
            use_ref_frame_mvs: false,
            is_filter_switchable: false,
            is_motion_mode_switchable: false,
            disable_frame_end_update_cdf: sequence.reduced_still_picture_hdr,
            allow_warped_motion: false,
            cdef_search_method: CDEFSearchMethod::PickFromQ,
            cdef_damping: 3,
            cdef_bits: 0,
            delta_q_present: false,
            base_q_idx: config.quantizer,
            me_range_scale: 1,
            use_tx_domain_distortion: rate || (config.tune == Tune::Psnr && config.tx_domain_distortion),
            use_tx_domain_rate: rate,
            idx_in_group_output: 0,
            pyramid_level: 0,
            enable_early_exit: !config.no_early_exit,
            tx_mode_select: false,
            enable_inter_txfm_split: config.enable_inter_tx_split,
            default_filter: FilterMode::REGULAR,
            enable_segmentation: config.segmentation,
            carries_metadata: false,
        };
        FrameInvariants {
            sequence: *sequence,
            header,
            globalmv_transformation_type: [GlobalMVMode::IDENTITY; 7],
            ref_frames: [0; 7],
            ref_frame_sign_bias: [false; 7],
            cdef_y_strengths: [0, 4, 9, 13, 22, 31, 43, 55],
            cdef_uv_strengths: [0, 4, 9, 13, 22, 31, 43, 55],
            dc_delta_q: [0; 3],
            ac_delta_q: [0; 3],
            rec_buffer: ReferenceFramesSet::new(),
            film_grain,
            coded_frame_data: None,
        }
    }

    /// A key frame that starts a group of frames at the given input frame.
    pub fn new_key_frame(config: &FrameConfig, sequence: &Sequence, bits: usize, film_grain: Vec<GrainSegment>, gop_input_frameno_start: u64) -> (r: Self)
        requires
            Self::config_ok(*config),
            sequence.bit_depth <= bits,
        ensures
            r.sequence == *sequence,
            r.header == (FrameHeader {
                input_frameno: gop_input_frameno_start,
                tx_mode_select: config.rdo_tx_decision,
                carries_metadata: true,
                ..first_header(*config, *sequence)
            }),
            r.is_first(),
            r.film_grain@ == film_grain@,
            r.coded_frame_data matches Some(d) && d.is_new(blocks_of(config.width as int, 8), blocks_of(config.height as int, 8)),
    {
        let mut fi: FrameInvariants = Self::new(config, sequence, bits, film_grain);
        fi.header.input_frameno = gop_input_frameno_start;
        fi.header.tx_mode_select = config.rdo_tx_decision;
        fi.header.carries_metadata = true;
        fi.coded_frame_data = Some(CodedFrameData::new(fi.header.w_in_b, fi.header.h_in_b));
        fi
    }

    /// The frame in words; `frame_type` is what its type is called.
    pub fn describe(&self, frame_type: &str) -> (r: String)
        ensures
            r@ == "Input Frame "@ + written_number(self.header.input_frameno as int) + " - "@ + frame_type@,
    {
        let mut out: String = "Input Frame ".to_owned();
        push_number(&mut out, self.header.input_frameno);
        out.append(" - ");
        out.append(frame_type);
        out
    }

    /// Whether the frame only shows one that is coded already.
    pub fn is_show_existing_frame(&self) -> (r: bool)
        ensures
            r == (self.coded_frame_data is None),
    {
        self.coded_frame_data.is_none()
    }

    /// The base two logarithm of a superblock's side.
    pub fn sb_size_log2(&self) -> (r: usize)
        ensures
            r == self.sequence.tiling.sb_size_log2,
    {
        self.sequence.tiling.sb_size_log2
    }

    /// The kind of a frame for rate control: key frames, then each level of the
    /// pyramid.
    pub fn get_frame_subtype(&self) -> (r: usize)
        requires
            self.header.pyramid_level < u32::MAX,
        ensures
            r == if self.header.frame_type == FrameType::KEY { 0 } else { 1 + self.header.pyramid_level },
    {
        if self.header.frame_type == FrameType::KEY { 0 } else { 1 + self.header.pyramid_level as usize }
    }

    /// The frame's time, in units of a ten millionth of a second, rounded down.
    pub open spec fn timestamp(&self) -> int {
        (self.header.input_frameno * 10_000_000 * self.sequence.time_base.num) / (self.sequence.time_base.den as int)
    }

    /// The frame's time can be computed.
    pub open spec fn timed(&self) -> bool {
        &&& self.sequence.time_base.den > 0
        &&& self.header.input_frameno * 10_000_000 <= u64::MAX
        &&& self.header.input_frameno * 10_000_000 * self.sequence.time_base.num <= u64::MAX
    }

    /// The frame's time, in units of a ten millionth of a second.
    pub fn frame_timestamp(&self) -> (r: u64)
        requires
            self.timed(),
        ensures
            r == self.timestamp(),
    {
        self.header.input_frameno * TIMESTAMP_BASE_UNIT * self.sequence.time_base.num / self.sequence.time_base.den
    }

    /// The film grain that covers a time: the first segment that does.
    pub open spec fn grain_at(&self, time: int) -> Option<int> {
        first_covering(self.film_grain@, time, 0)
    }

    /// The frame's film grain segment, where the frame can be shown and a segment
    /// covers its time.
    pub fn film_grain_params(&self) -> (r: Option<usize>)
        requires
            self.header.show_frame || self.header.showable_frame ==> self.timed(),
        ensures
            match r {
                Some(i) => (self.header.show_frame || self.header.showable_frame) && self.grain_at(self.timestamp()) == Some(i as int) && i < self.film_grain.len(),
                None => !(self.header.show_frame || self.header.showable_frame) || self.grain_at(self.timestamp()) is None,
            },
    {
        if !(self.header.show_frame || self.header.showable_frame) {
            return None;
        }
        let time: u64 = self.frame_timestamp();
        let mut i: usize = 0;
        while i < self.film_grain.len()
            invariant
                i <= self.film_grain.len(),
                time == self.timestamp(),
                self.header.show_frame || self.header.showable_frame,
                self.grain_at(time as int) == first_covering(self.film_grain@, time as int, i as int),
            decreases self.film_grain.len() - i,
        {
            let s: GrainSegment = self.film_grain[i];
            if time >= s.start_time && time < s.end_time {
                return Some(i);
            }
            i = i + 1;
        }
        None
    }

    /// Marks the references that come later in time than the frame.
    pub fn set_ref_frame_sign_bias(&mut self)
        requires
            old(self).sequence.order_hint_bits_minus_1 <= 29,
            forall|i: int| 0 <= i < 7 ==> #[trigger] old(self).ref_frames@[i] < 8,
        ensures
            final(self).ref_frame_sign_bias@.len() == 7,
            forall|i: int| 0 <= i < 7 ==> #[trigger] final(self).ref_frame_sign_bias@[i] == old(self).is_later(i),
            final(self).sequence == old(self).sequence,
            final(self).header == old(self).header,
            final(self).globalmv_transformation_type == old(self).globalmv_transformation_type,
            final(self).ref_frames == old(self).ref_frames,
            final(self).cdef_y_strengths == old(self).cdef_y_strengths,
            final(self).cdef_uv_strengths == old(self).cdef_uv_strengths,
            final(self).dc_delta_q == old(self).dc_delta_q,
            final(self).ac_delta_q == old(self).ac_delta_q,
            final(self).rec_buffer == old(self).rec_buffer,
            final(self).film_grain == old(self).film_grain,
            final(self).coded_frame_data == old(self).coded_frame_data,
    {
        let mut bias: [bool; 7] = [false; 7];
        let mut i: usize = 0;
        while i < INTER_REFS_PER_FRAME
            invariant
                i <= 7,
                self.sequence.order_hint_bits_minus_1 <= 29,
                *self == *old(self),
                forall|k: int| 0 <= k < 7 ==> #[trigger] self.ref_frames@[k] < 8,
                forall|k: int| 0 <= k < i ==> #[trigger] bias@[k] == self.is_later(k),
            decreases 7 - i,
        {
            assert(self.ref_frames@[i as int] < 8);
            let later: bool = if !self.sequence.enable_order_hint {
                false
            } else {
                match self.rec_buffer.frames[self.ref_frames[i] as usize] {
                    Some(rec) => self.sequence.get_relative_dist(rec.order_hint, self.header.order_hint) > 0,
                    None => false,
                }
            };
            bias[i] = later;
            i = i + 1;
        }
        self.ref_frame_sign_bias = bias;
    }

    /// The frame's `i`-th reference comes later in time.
    pub open spec fn is_later(&self, i: int) -> bool {
        self.sequence.enable_order_hint && (match self.rec_buffer.frames@[self.ref_frames@[i] as int] {
            Some(rec) => relative_dist(self.sequence.order_hint_bits_minus_1 as nat, rec.order_hint as int, self.header.order_hint as int) > 0,
            None => false,
        })
    }
}

/// The first segment from `i` on that covers a time.
pub open spec fn first_covering(s: Seq<GrainSegment>, time: int, i: int) -> Option<int>
    decreases s.len() - i,
{
    if i >= s.len() {
        None
    } else if s[i].start_time <= time < s[i].end_time {
        Some(i)
    } else {
        first_covering(s, time, i + 1)
    }
}

/// The level of a position in a pyramid: the deepest for odd positions, and one less
/// each time that a position can be halved.
pub open spec fn level_of(pos: nat, depth: nat) -> nat
    decreases depth,
{
    if depth == 0 {
        0
    } else if pos % 2 == 1 {
        depth
    } else {
        level_of(pos / 2, (depth - 1) as nat)
    }
}

/// The level of a frame within a pyramid from its position in coding order.
pub fn pos_to_lvl(pos: u64, pyramid_depth: u64) -> (r: u64)
    ensures
        r == level_of(pos as nat, pyramid_depth as nat),
        r <= pyramid_depth,
{
    let mut p: u64 = pos;
    let mut d: u64 = pyramid_depth;
    while d > 0 && p % 2 == 0
        invariant
            d <= pyramid_depth,
            level_of(pos as nat, pyramid_depth as nat) == level_of(p as nat, d as nat),
        decreases d,
    {
        p = p / 2;
        d = d - 1;
    }
    d
}

/// How frames of a group refer to each other.
#[derive(Clone, Copy, Debug, PartialEq, Eq, Structural)]
pub struct InterConfig {
    /// Frames have several references.
    pub multiref: bool,
    pub pyramid_depth: u64,
    /// Input frames of a group.
    pub group_input_len: u64,
    /// Output frames between switch frames; zero for none.
    pub switch_frame_interval: u64,
}

/// Where a frame stands in its group.
#[derive(Clone, Copy, Debug, PartialEq, Eq, Structural)]
pub struct FramePosition {
    pub input_frameno: u64,
    pub idx_in_group_output: u64,
    pub show_existing_frame: bool,
    pub order_hint: u32,
    pub level: u64,
    /// The slot that the frame is kept in.
    pub slot_idx: u32,
    pub show_frame: bool,
}

/// The slot that holds the frame at an order hint: the four last of the top level
/// take turns, each deeper level has one.
pub open spec fn slot_of(oh: nat, depth: nat) -> int {
    let l = level_of(oh, depth);
    if l == 0 { (oh as int / pow2(depth) as int) % 4 } else { 3 + l as int }
}

/// The slots of a frame's seven references. On the top level all are the frame
/// before; below it, the frame before on a higher level. With several references one
/// is the second frame before, or the frame after; below the top level another is the
/// last on the same level.
pub open spec fn reference_slots(c: InterConfig, p: FramePosition) -> Seq<int> {
    let second = if p.idx_in_group_output == 0 { 1int } else { 6 };
    let step = p.step(c);
    if p.level == 0 {
        Seq::new(7, |i: int| if c.multiref && i == second { (p.slot_idx + 2) % 4 } else { (p.slot_idx + 3) % 4 })
    } else {
        Seq::new(
            7,
            |i: int| if i == 2 {
                p.slot_idx as int
            } else if i == second {
                slot_of((p.order_hint + step) as nat, c.pyramid_depth as nat)
            } else {
                slot_of((p.order_hint - step) as nat, c.pyramid_depth as nat)
            },
        )
    }
}

impl FramePosition {
    /// The distance to the neighbours on a higher level.
    pub open spec fn step(self, c: InterConfig) -> int {
        c.group_input_len as int / pow2(self.level as nat) as int
    }

    /// The position is one of a group.
    pub open spec fn wf(self, c: InterConfig) -> bool {
        &&& c.group_input_len <= 255
        &&& c.pyramid_depth <= 4
        &&& self.slot_idx < 8
        &&& self.level <= c.pyramid_depth
        &&& self.level > 0 ==> c.multiref && self.step(c) <= self.order_hint && self.order_hint + self.step(c) <= u32::MAX
    }
}

/// The kind of an inter frame: a switch frame at the interval, on the top level.
pub open spec fn inter_frame_type(c: InterConfig, p: FramePosition, output_frameno_in_gop: u64) -> FrameType {
    if c.switch_frame_interval > 0 && output_frameno_in_gop as int % c.switch_frame_interval as int == 0 && p.level == 0 {
        FrameType::SWITCH
    } else {
        FrameType::INTER
    }
}

/// The frame size is given in the header: always for a switch frame, never with a
/// reduced header, where the render size differs and the references could give it,
/// else where it is not the sequence's.
pub open spec fn size_override(h: FrameHeader, s: Sequence, t: FrameType, error_resilient: bool) -> bool {
    if t == FrameType::SWITCH {
        true
    } else if s.reduced_still_picture_hdr {
        false
    } else if !error_resilient && h.render_and_frame_size_different {
        true
    } else {
        h.width != s.max_frame_width || h.height != s.max_frame_height
    }
}

/// The filter that a probe asks for.
pub open spec fn probed_filter(probe: Option<u8>, filter: FilterMode) -> FilterMode {
    match probe {
        Some(v) => if v == 1 {
            FilterMode::SMOOTH
        } else if v == 2 {
            FilterMode::SHARP
        } else {
            FilterMode::REGULAR
        },
        None => filter,
    }
}

/// The header of an inter frame that follows a frame with header `h`.
#[verifier::opaque]
pub open spec fn inter_header(
    h: FrameHeader,
    s: Sequence,
    c: InterConfig,
    p: FramePosition,
    output_frameno_in_gop: u64,
    error_resilient: bool,
    primref_max_level: u64,
    filter_probe: Option<u8>,
) -> FrameHeader {
    let t = inter_frame_type(c, p, output_frameno_in_gop);
    let resilient = t == FrameType::SWITCH || error_resilient;
    FrameHeader {
        intra_only: false,
        force_integer_mv: 0,
        idx_in_group_output: p.idx_in_group_output,
        tx_mode_select: h.enable_inter_txfm_split,
        order_hint: p.order_hint,
        pyramid_level: p.level,
        frame_type: t,
        error_resilient: resilient,
        frame_size_override_flag: size_override(h, s, t, resilient),
        show_frame: p.show_frame,
        carries_metadata: p.show_frame,
        frame_to_show_map_idx: p.slot_idx,
        refresh_frame_flags: if t == FrameType::SWITCH {
            ALL_REF_FRAMES_MASK
        } else if p.show_existing_frame {
            0
        } else {
            slot_flag(p.slot_idx as int)
        },
        primary_ref_frame: if resilient || p.level > primref_max_level { PRIMARY_REF_NONE } else { 2 },
        reference_mode: if c.multiref && p.idx_in_group_output != 0 { ReferenceMode::SELECT } else { ReferenceMode::SINGLE },
        input_frameno: p.input_frameno,
        me_range_scale: p.step(c) as u8,
        default_filter: probed_filter(filter_probe, h.default_filter),
        ..h
    }
}

/// The flag of a slot.
pub open spec fn slot_flag(i: int) -> u32 {
    pow2(i as nat) as u32
}

/// The seed after a frame with film grain: moved on, and never zero.
pub open spec fn next_seed(seed: u16, default_seed: u16) -> u16 {
    let n = ((seed + 3248) % 65536) as u16;
    if n == 0 { default_seed } else { n }
}

/// The film grain after a frame: the seed of the segment that covers its time is
/// moved on.
pub open spec fn grain_after(s: Seq<GrainSegment>, shown: bool, time: int, default_seed: u16) -> Seq<GrainSegment> {
    match first_covering(s, time, 0) {
        Some(i) if shown => s.update(i, GrainSegment { random_seed: next_seed(s[i].random_seed, default_seed), ..s[i] }),
        _ => s,
    }
}

fn copy_vec<T: Copy>(v: &Vec<T>) -> (r: Vec<T>)
    ensures
        r@ == v@,
{
    let mut out: Vec<T> = Vec::new();
    let mut i: usize = 0;
    while i < v.len()
        invariant
            i <= v.len(),
            out@ =~= v@.subrange(0, i as int),
        decreases v.len() - i,
    {
        out.push(v[i]);
        i = i + 1;
    }
    assert(v@.subrange(0, i as int) =~= v@);
    out
}

/// Two frames have the same lookahead results.
pub open spec fn same_coded_data(a: Option<CodedFrameData>, b: Option<CodedFrameData>) -> bool {
    match (a, b) {
        (Some(x), Some(y)) => {
            &&& x.lookahead_rec_buffer == y.lookahead_rec_buffer
            &&& x.w_in_imp_b == y.w_in_imp_b
            &&& x.h_in_imp_b == y.h_in_imp_b
            &&& x.lookahead_intra_costs@ == y.lookahead_intra_costs@
            &&& x.distortion_scales@ == y.distortion_scales@
            &&& x.activity_scales@ == y.activity_scales@
            &&& x.activity_mask@ == y.activity_mask@
            &&& x.spatiotemporal_scores@ == y.spatiotemporal_scores@
        },
        (None, None) => true,
        _ => false,
    }
}

fn copy_coded_data(d: &Option<CodedFrameData>) -> (r: Option<CodedFrameData>)
    ensures
        same_coded_data(r, *d),
{
    match d {
        Some(x) => Some(CodedFrameData {
            lookahead_rec_buffer: x.lookahead_rec_buffer,
            w_in_imp_b: x.w_in_imp_b,
            h_in_imp_b: x.h_in_imp_b,
            lookahead_intra_costs: copy_vec(&x.lookahead_intra_costs),
            distortion_scales: copy_vec(&x.distortion_scales),
            activity_scales: copy_vec(&x.activity_scales),
            activity_mask: copy_vec(&x.activity_mask),
            spatiotemporal_scores: copy_vec(&x.spatiotemporal_scores),
        }),
        None => None,
    }
}

/// The `d`-fold half of a number.
fn halved(v: u64, d: u64) -> (r: u64)
    requires
        d <= 4,
    ensures
        r == v as int / pow2(d as nat) as int,
        r <= v,
{
    proof {
        lemma2_to64();
    }
    if d == 0 {
        v
    } else if d == 1 {
        v / 2
    } else if d == 2 {
        v / 4
    } else if d == 3 {
        v / 8
    } else {
        v / 16
    }
}

/// The slot that holds the frame at an order hint.
fn slot_at(oh: u32, depth: u64) -> (r: u8)
    requires
        depth <= 4,
    ensures
        r == slot_of(oh as nat, depth as nat),
        r < 8,
{
    let l: u64 = pos_to_lvl(oh as u64, depth);
    if l == 0 { (halved(oh as u64, depth) % 4) as u8 } else { 3 + l as u8 }
}

/// The slots of a frame's seven references.
fn references(c: &InterConfig, p: &FramePosition) -> (r: [u8; 7])
    requires
        p.wf(*c),
    ensures
        forall|i: int| 0 <= i < 7 ==> #[trigger] r@[i] == reference_slots(*c, *p)[i],
        forall|i: int| 0 <= i < 7 ==> #[trigger] r@[i] < 8,
{
    let second: usize = if p.idx_in_group_output == 0 { 1 } else { 6 };
    if p.level == 0 {
        let before: u8 = ((p.slot_idx + 3) % 4) as u8;
        let mut r: [u8; 7] = [before; 7];
        if c.multiref {
            r[second] = ((p.slot_idx + 2) % 4) as u8;
        }
        r
    } else {
        let step: u32 = halved(c.group_input_len, p.level) as u32;
        let back: u8 = slot_at(p.order_hint - step, c.pyramid_depth);
        let ahead: u8 = slot_at(p.order_hint + step, c.pyramid_depth);
        let mut r: [u8; 7] = [back; 7];
        r[second] = ahead;
        r[2] = p.slot_idx as u8;
        r
    }
}

/// The header of an inter frame that follows a frame with header `h`.
fn next_header(
    h: &FrameHeader,
    s: &Sequence,
    c: &InterConfig,
    p: &FramePosition,
    output_frameno_in_gop: u64,
    error_resilient: bool,
    primref_max_level: u64,
    filter_probe: Option<u8>,
) -> (r: FrameHeader)
    requires
        p.wf(*c),
    ensures
        r == inter_header(*h, *s, *c, *p, output_frameno_in_gop, error_resilient, primref_max_level, filter_probe),
        r.input_frameno == p.input_frameno,
        r.show_frame == p.show_frame,
        r.showable_frame == h.showable_frame,
{
    let switch: bool = c.switch_frame_interval > 0 && output_frameno_in_gop % c.switch_frame_interval == 0 && p.level == 0;
    let frame_type: FrameType = if switch { FrameType::SWITCH } else { FrameType::INTER };
    let resilient: bool = switch || error_resilient;
    let frame_size_override_flag: bool = if switch {
        true
    } else if s.reduced_still_picture_hdr {
        false
    } else if !resilient && h.render_and_frame_size_different {
        true
    } else {
        h.width != s.max_frame_width as usize || h.height != s.max_frame_height as usize
    };
    let refresh_frame_flags: u32 = if switch {
        ALL_REF_FRAMES_MASK
    } else if p.show_existing_frame {
        0
    } else {
        flag_of(p.slot_idx)
    };
    let primary_ref_frame: u32 = if resilient || p.level > primref_max_level { PRIMARY_REF_NONE } else { RefType::LAST3_FRAME.to_index() as u32 };
    let reference_mode: ReferenceMode = if c.multiref && p.idx_in_group_output != 0 { ReferenceMode::SELECT } else { ReferenceMode::SINGLE };
    let me_range_scale: u8 = halved(c.group_input_len, p.level) as u8;
    let default_filter: FilterMode = probe_filter(filter_probe, h.default_filter);
    proof {
        reveal(inter_header);
    }
    FrameHeader {
        intra_only: false,
        force_integer_mv: 0,
        idx_in_group_output: p.idx_in_group_output,
        tx_mode_select: h.enable_inter_txfm_split,
        order_hint: p.order_hint,
        pyramid_level: p.level,
        frame_type,
        error_resilient: resilient,
        frame_size_override_flag,
        show_frame: p.show_frame,
        carries_metadata: p.show_frame,
        frame_to_show_map_idx: p.slot_idx,
        refresh_frame_flags,
        primary_ref_frame,
        reference_mode,
        input_frameno: p.input_frameno,
        me_range_scale,
        default_filter,
        ..*h
    }
}

/// The filter that a probe asks for.
fn probe_filter(probe: Option<u8>, filter: FilterMode) -> (r: FilterMode)
    ensures
        r == probed_filter(probe, filter),
{
    match probe {
        Some(v) => if v == 1 {
            FilterMode::SMOOTH
        } else if v == 2 {
            FilterMode::SHARP
        } else {
            FilterMode::REGULAR
        },
        None => filter,
    }
}

impl FrameInvariants {
    /// The frame without its lookahead results, under the filter that a probe asks
    /// for.
    pub fn clone_without_coded_data(&self, filter_probe: Option<u8>) -> (r: Self)
        ensures
            r.coded_frame_data is None,
            r.sequence == self.sequence,
            r.header == (FrameHeader { default_filter: probed_filter(filter_probe, self.header.default_filter), ..self.header }),
            r.globalmv_transformation_type == self.globalmv_transformation_type,
            r.ref_frames == self.ref_frames,
            r.ref_frame_sign_bias == self.ref_frame_sign_bias,
            r.cdef_y_strengths == self.cdef_y_strengths,
            r.cdef_uv_strengths == self.cdef_uv_strengths,
            r.dc_delta_q == self.dc_delta_q,
            r.ac_delta_q == self.ac_delta_q,
            r.rec_buffer == self.rec_buffer,
            r.film_grain@ == self.film_grain@,
    {
        let default_filter: FilterMode = probe_filter(filter_probe, self.header.default_filter);
        let header: FrameHeader = FrameHeader { default_filter, ..self.header };
        FrameInvariants {
            sequence: self.sequence,
            header,
            globalmv_transformation_type: self.globalmv_transformation_type,
            ref_frames: self.ref_frames,
            ref_frame_sign_bias: self.ref_frame_sign_bias,
            cdef_y_strengths: self.cdef_y_strengths,
            cdef_uv_strengths: self.cdef_uv_strengths,
            dc_delta_q: self.dc_delta_q,
            ac_delta_q: self.ac_delta_q,
            rec_buffer: self.rec_buffer,
            film_grain: copy_vec(&self.film_grain),
            coded_frame_data: None,
        }
    }

    /// Moves the seed of the frame's film grain on.
    fn advance_grain(&mut self, default_seed: u16)
        requires
            old(self).header.show_frame || old(self).header.showable_frame ==> old(self).timed(),
        ensures
            final(self).film_grain@ == grain_after(
                old(self).film_grain@,
                old(self).header.show_frame || old(self).header.showable_frame,
                old(self).timestamp(),
                default_seed,
            ),
            final(self).sequence == old(self).sequence,
            final(self).header == old(self).header,
            final(self).globalmv_transformation_type == old(self).globalmv_transformation_type,
            final(self).ref_frames == old(self).ref_frames,
            final(self).ref_frame_sign_bias == old(self).ref_frame_sign_bias,
            final(self).cdef_y_strengths == old(self).cdef_y_strengths,
            final(self).cdef_uv_strengths == old(self).cdef_uv_strengths,
            final(self).dc_delta_q == old(self).dc_delta_q,
            final(self).ac_delta_q == old(self).ac_delta_q,
            final(self).rec_buffer == old(self).rec_buffer,
            final(self).coded_frame_data == old(self).coded_frame_data,
    {
        let ghost before = self.film_grain@;
        let found: Option<usize> = self.film_grain_params();
        if let Some(i) = found {
            let mut s: GrainSegment = self.film_grain[i];
            let moved: u16 = s.random_seed.wrapping_add(3248);
            s.random_seed = if moved == 0 { default_seed } else { moved };
            self.film_grain.set(i, s);
        }
        assert(self.film_grain@ =~= grain_after(before, self.header.show_frame || self.header.showable_frame, self.timestamp(), default_seed));
    }

    /// The frame at a position of a group, after the frame that was coded before it;
    /// none where the position lies past the next key frame. Levels above
    /// `primref_max_level` do not inherit distributions.
    pub fn new_inter_frame(
        previous_coded_fi: &Self,
        inter_cfg: &InterConfig,
        position: &FramePosition,
        output_frameno_in_gop: u64,
        next_keyframe_input_frameno: u64,
        error_resilient: bool,
        primref_max_level: u64,
        filter_probe: Option<u8>,
        default_seed: u16,
    ) -> (r: Option<Self>)
        requires
            position.wf(*inter_cfg),
            previous_coded_fi.coded_frame_data is Some,
            previous_coded_fi.sequence.order_hint_bits_minus_1 <= 29,
            position.show_frame || previous_coded_fi.header.showable_frame ==> {
                &&& previous_coded_fi.sequence.time_base.den > 0
                &&& position.input_frameno * 10_000_000 * previous_coded_fi.sequence.time_base.num <= u64::MAX
                &&& position.input_frameno * 10_000_000 <= u64::MAX
            },
        ensures
            r is None <==> position.input_frameno >= next_keyframe_input_frameno,
            r matches Some(fi) ==> {
                let prev = *previous_coded_fi;
                &&& fi.sequence == prev.sequence
                &&& fi.header == inter_header(prev.header, prev.sequence, *inter_cfg, *position, output_frameno_in_gop, error_resilient, primref_max_level, filter_probe)
                &&& forall|i: int| 0 <= i < 7 ==> #[trigger] fi.ref_frames@[i] == reference_slots(*inter_cfg, *position)[i]
                &&& forall|i: int| 0 <= i < 7 ==> #[trigger] fi.ref_frame_sign_bias@[i] == fi.is_later(i)
                &&& fi.globalmv_transformation_type == prev.globalmv_transformation_type
                &&& fi.rec_buffer == prev.rec_buffer
                &&& fi.cdef_y_strengths == prev.cdef_y_strengths
                &&& fi.cdef_uv_strengths == prev.cdef_uv_strengths
                &&& fi.dc_delta_q == prev.dc_delta_q
                &&& fi.ac_delta_q == prev.ac_delta_q
                &&& position.show_existing_frame ==> fi.coded_frame_data is None
                &&& !position.show_existing_frame ==> same_coded_data(fi.coded_frame_data, prev.coded_frame_data)
                &&& fi.film_grain@ == grain_after(
                    prev.film_grain@,
                    fi.header.show_frame || fi.header.showable_frame,
                    fi.timestamp(),
                    default_seed,
                )
            },
    {
        if position.input_frameno >= next_keyframe_input_frameno {
            return None;
        }
        let mut fi: FrameInvariants = previous_coded_fi.clone_without_coded_data(filter_probe);
        fi.header = next_header(
            &previous_coded_fi.header,
            &previous_coded_fi.sequence,
            inter_cfg,
            position,
            output_frameno_in_gop,
            error_resilient,
            primref_max_level,
            filter_probe,
        );
        if !position.show_existing_frame {
            fi.coded_frame_data = copy_coded_data(&previous_coded_fi.coded_frame_data);
        }
        fi.ref_frames = references(inter_cfg, position);
        fi.set_ref_frame_sign_bias();
        fi.advance_grain(default_seed);
        Some(fi)
    }
}

/// The flag of a slot.
fn flag_of(i: u32) -> (r: u32)
    requires
        i < 8,
    ensures
        r == slot_flag(i as int),
        1 <= r <= 128,
{
    proof {
        lemma2_to64();
    }
    if i == 0 {
        1
    } else if i == 1 {
        2
    } else if i == 2 {
        4
    } else if i == 3 {
        8
    } else if i == 4 {
        16
    } else if i == 5 {
        32
    } else if i == 6 {
        64
    } else {
        128
    }
}

/// Quantizer indices of the three planes.
#[derive(Clone, Copy, Debug)]
pub struct QuantizerIndices {
    pub ac_qi: [u8; 3],
    pub dc_qi: [u8; 3],
}

/// Strengths that were fitted to a quantizer, primary then secondary, for luma and
/// chroma.
#[derive(Clone, Copy, Debug, PartialEq, Eq, Structural)]
pub struct CdefFit {
    pub y_pri: u8,
    pub y_sec: u8,
    pub uv_pri: u8,
    pub uv_sec: u8,
}

/// The differences of indices to the frame's.
fn index_deltas(qi: &[u8; 3], base: u8) -> (r: [i8; 3])
    ensures
        forall|p: int| 0 <= p < 3 ==> #[trigger] r@[p] == trunc8(qi@[p] - base),
{
    [
        truncate_i8(qi[0] as i16 - base as i16),
        truncate_i8(qi[1] as i16 - base as i16),
        truncate_i8(qi[2] as i16 - base as i16),
    ]
}

impl FrameInvariants {
    /// Sets the quantizers of the planes, and the filter that is picked from the frame's.
    pub fn set_quantizers(&mut self, qps: &QuantizerIndices, fit: CdefFit)
        requires
            old(self).header.cdef_search_method == CDEFSearchMethod::PickFromQ,
            fit.y_pri <= 15,
            fit.y_sec <= 3,
            fit.uv_pri <= 15,
            fit.uv_sec <= 3,
        ensures
            final(self).header == (FrameHeader {
                base_q_idx: qps.ac_qi@[0],
                cdef_damping: (3 + qps.ac_qi@[0] as int / 64) as u8,
                ..old(self).header
            }),
            forall|p: int| 0 <= p < 3 ==> #[trigger] final(self).dc_delta_q@[p] == trunc8(qps.dc_qi@[p] - qps.ac_qi@[0]),
            forall|p: int| 0 <= p < 3 ==> #[trigger] final(self).ac_delta_q@[p] == trunc8(qps.ac_qi@[p] - qps.ac_qi@[0]),
            final(self).cdef_y_strengths@ == old(self).cdef_y_strengths@.update(0, (fit.y_pri * 4 + fit.y_sec) as u8),
            final(self).cdef_uv_strengths@ == old(self).cdef_uv_strengths@.update(0, (fit.uv_pri * 4 + fit.uv_sec) as u8),
            // Each damping serves 64 indices, and a strength gives both its parts back.
            64 * (final(self).header.cdef_damping - 3) <= final(self).header.base_q_idx < 64 * (final(self).header.cdef_damping - 2),
            final(self).cdef_y_strengths@[0] as int / 4 == fit.y_pri && final(self).cdef_y_strengths@[0] as int % 4 == fit.y_sec,
            final(self).cdef_uv_strengths@[0] as int / 4 == fit.uv_pri && final(self).cdef_uv_strengths@[0] as int % 4 == fit.uv_sec,
            final(self).sequence == old(self).sequence,
            final(self).globalmv_transformation_type == old(self).globalmv_transformation_type,
            final(self).ref_frames == old(self).ref_frames,
            final(self).ref_frame_sign_bias == old(self).ref_frame_sign_bias,
            final(self).rec_buffer == old(self).rec_buffer,
            final(self).film_grain == old(self).film_grain,
            final(self).coded_frame_data == old(self).coded_frame_data,
    {
        let base: u8 = qps.ac_qi[0];
        self.header = FrameHeader { base_q_idx: base, cdef_damping: 3 + base / 64, ..self.header };
        self.dc_delta_q = index_deltas(&qps.dc_qi, base);
        self.ac_delta_q = index_deltas(&qps.ac_qi, base);
        self.cdef_y_strengths[0] = fit.y_pri * 4 + fit.y_sec;
        self.cdef_uv_strengths[0] = fit.uv_pri * 4 + fit.uv_sec;
    }

    /// Which of four multipliers scales the frame's rate-distortion trade: the first
    /// for frames without references, else by level.
    pub fn lambda_level(&self) -> (r: usize)
        ensures
            r == if self.header.intra_only { 0 } else { imin(self.header.pyramid_level as int, 3) },
    {
        if self.header.intra_only {
            0
        } else if self.header.pyramid_level < 3 {
            self.header.pyramid_level as usize
        } else {
            3
        }
    }

    /// The reference whose probabilities and segments the frame starts from.
    pub open spec fn primary_reference(&self) -> Option<ReferenceFrame> {
        if self.header.primary_ref_frame == PRIMARY_REF_NONE {
            None
        } else {
            self.rec_buffer.frames@[self.ref_frames@[self.header.primary_ref_frame as int] as int]
        }
    }

    /// The primary reference lies among the references, and those among the slots.
    pub open spec fn references_ok(&self) -> bool {
        &&& self.header.primary_ref_frame <= 7
        &&& forall|i: int| 0 <= i < 7 ==> #[trigger] self.ref_frames@[i] < 8
    }

    fn primary(&self) -> (r: Option<ReferenceFrame>)
        requires
            self.references_ok(),
        ensures
            r == self.primary_reference(),
    {
        if self.header.primary_ref_frame == PRIMARY_REF_NONE {
            None
        } else {
            assert(self.ref_frames@[self.header.primary_ref_frame as int] < 8);
            self.rec_buffer.frames[self.ref_frames[self.header.primary_ref_frame as usize] as usize]
        }
    }

    /// The buffer whose probabilities the frame starts from; none where it starts
    /// from those of its quantizer.
    pub fn get_initial_cdfcontext(&self) -> (r: Option<usize>)
        requires
            self.references_ok(),
        ensures
            r == match self.primary_reference() {
                Some(rec) => Some(rec.buffer),
                None => None,
            },
    {
        match self.primary() {
            Some(rec) => Some(rec.buffer),
            None => None,
        }
    }

    /// The segments that the frame starts from: those of its primary reference, else
    /// none.
    pub fn get_initial_segmentation(&self) -> (r: SegmentationState)
        requires
            self.references_ok(),
        ensures
            match self.primary_reference() {
                Some(rec) => r == rec.segmentation,
                None => r.is_default(),
            },
    {
        match self.primary() {
            Some(rec) => rec.segmentation,
            None => SegmentationState::default(),
        }
    }
}

impl FrameInvariants {
    /// The buffer whose samples a frame that only shows another is reconstructed to:
    /// that of the slot it names, where the slot holds one.
    pub fn shown_reference(&self) -> (r: Option<usize>)
        requires
            self.header.frame_to_show_map_idx < 8,
        ensures
            r == match self.rec_buffer.frames@[self.header.frame_to_show_map_idx as int] {
                Some(rec) => Some(rec.buffer),
                None => None,
            },
    {
        match self.rec_buffer.frames[self.header.frame_to_show_map_idx as usize] {
            Some(rec) => Some(rec.buffer),
            None => None,
        }
    }
}

/// The flags name the slot.
pub open spec fn has_flag(flags: u32, i: int) -> bool {
    (flags as int / pow2(i as nat) as int) % 2 == 1
}

/// Keeps the coded frame in every slot that its flags name. `buffer` names its
/// samples, probabilities and motion.
pub fn update_rec_buffer(output_frameno: u64, fi: &mut FrameInvariants, segmentation: SegmentationState, deblock: DeblockState, buffer: usize)
    requires
        old(fi).header.width <= u32::MAX,
        old(fi).header.height <= u32::MAX,
    ensures
        ({
            let h = old(fi).header;
            let rec = ReferenceFrame {
                order_hint: h.order_hint,
                width: h.width as u32,
                height: h.height as u32,
                render_width: h.render_width,
                render_height: h.render_height,
                output_frameno,
                segmentation,
                buffer,
            };
            forall|i: int| 0 <= i < 8 ==> {
                &&& #[trigger] final(fi).rec_buffer.frames@[i] == if has_flag(h.refresh_frame_flags, i) { Some(rec) } else { old(fi).rec_buffer.frames@[i] }
                &&& final(fi).rec_buffer.deblock@[i] == if has_flag(h.refresh_frame_flags, i) { deblock } else { old(fi).rec_buffer.deblock@[i] }
            }
        }),
        final(fi).header == old(fi).header,
        final(fi).sequence == old(fi).sequence,
        final(fi).globalmv_transformation_type == old(fi).globalmv_transformation_type,
        final(fi).ref_frames == old(fi).ref_frames,
        final(fi).ref_frame_sign_bias == old(fi).ref_frame_sign_bias,
        final(fi).cdef_y_strengths == old(fi).cdef_y_strengths,
        final(fi).cdef_uv_strengths == old(fi).cdef_uv_strengths,
        final(fi).dc_delta_q == old(fi).dc_delta_q,
        final(fi).ac_delta_q == old(fi).ac_delta_q,
        final(fi).film_grain == old(fi).film_grain,
        final(fi).coded_frame_data == old(fi).coded_frame_data,
{
    let h: FrameHeader = fi.header;
    let rec: ReferenceFrame = ReferenceFrame {
        order_hint: h.order_hint,
        width: h.width as u32,
        height: h.height as u32,
        render_width: h.render_width,
        render_height: h.render_height,
        output_frameno,
        segmentation,
        buffer,
    };
    fi.rec_buffer = refreshed(&fi.rec_buffer, h.refresh_frame_flags, rec, deblock);
}

/// The slots with a frame in every one that the flags name.
fn refreshed(set: &ReferenceFramesSet, flags: u32, rec: ReferenceFrame, deblock: DeblockState) -> (r: ReferenceFramesSet)
    ensures
        forall|i: int| 0 <= i < 8 ==> #[trigger] r.frames@[i] == if has_flag(flags, i) { Some(rec) } else { set.frames@[i] },
        forall|i: int| 0 <= i < 8 ==> #[trigger] r.deblock@[i] == if has_flag(flags, i) { deblock } else { set.deblock@[i] },
{
    let mut frames: [Option<ReferenceFrame>; 8] = set.frames;
    let mut filters: [DeblockState; 8] = set.deblock;
    let mut rest: u32 = flags;
    let mut i: usize = 0;
    proof {
        lemma2_to64();
        assert(flags as int / 1 == flags);
    }
    while i < REF_FRAMES
        invariant
            i <= 8,
            rest == flags as int / pow2(i as nat) as int,
            forall|k: int| 0 <= k < 8 ==> #[trigger] frames@[k] == if k < i && has_flag(flags, k) { Some(rec) } else { set.frames@[k] },
            forall|k: int| 0 <= k < 8 ==> #[trigger] filters@[k] == if k < i && has_flag(flags, k) { deblock } else { set.deblock@[k] },
        decreases 8 - i,
    {
        if rest % 2 == 1 {
            frames[i] = Some(rec);
            filters[i] = deblock;
        }
        proof {
            lemma_pow2_pos(i as nat);
            lemma_pow2_unfold((i + 1) as nat);
            crate::util::lemma_div_halves(flags as int, pow2(i as nat) as int);
        }
        rest = rest / 2;
        i = i + 1;
    }
    ReferenceFramesSet { frames, deblock: filters }
}

/// The flag of a slot names that slot and no other; all flags together name every
/// slot, and none names none.
pub proof fn law_refresh_flags_name_slots(slot: int, i: int)
    requires
        0 <= slot < 8,
        0 <= i < 8,
    ensures
        has_flag(slot_flag(slot), i) == (i == slot),
        has_flag(ALL_REF_FRAMES_MASK, i),
        !has_flag(0, i),
{
    lemma2_to64();
    let d = pow2(i as nat) as int;
    let s = pow2(slot as nat) as int;
    lemma_pow2_pos(i as nat);
    lemma_pow2_pos(slot as nat);
    if slot < 7 {
        lemma_pow2_strictly_increases(slot as nat, 7);
    }
    assert(slot_flag(slot) as int == s);
    assert(0int / d == 0) by (nonlinear_arith)
        requires d > 0;
    if i <= slot {
        let q = pow2((slot - i) as nat) as int;
        lemma_pow2_adds(i as nat, (slot - i) as nat);
        assert(d * q == q * d) by (nonlinear_arith);
        vstd::arithmetic::div_mod::lemma_fundamental_div_mod_converse(s, d, q, 0);
        if slot > i {
            lemma_pow2_unfold((slot - i) as nat);
        }
    } else {
        lemma_pow2_strictly_increases(slot as nat, i as nat);
        vstd::arithmetic::div_mod::lemma_fundamental_div_mod_converse(s, d, 0, s);
    }
    let r = pow2((8 - i) as nat) as int;
    lemma_pow2_adds(i as nat, (8 - i) as nat);
    lemma_pow2_unfold((8 - i) as nat);
    assert(255 == (r - 1) * d + (d - 1)) by (nonlinear_arith)
        requires d * r == 256;
    vstd::arithmetic::div_mod::lemma_fundamental_div_mod_converse(255, d, r - 1, d - 1);
}

/// The first position of every group is on the top level, and every odd position is
/// on the deepest.
pub proof fn law_group_starts_on_the_top_level(k: nat, depth: nat)
    ensures
        level_of(k * pow2(depth), depth) == 0,
        level_of(2 * k + 1, depth) == depth,
    decreases depth,
{
    if depth > 0 {
        lemma_pow2_unfold(depth);
        let p = pow2((depth - 1) as nat);
        assert(k * pow2(depth) == 2 * (k * p)) by (nonlinear_arith)
            requires pow2(depth) == 2 * p;
        law_group_starts_on_the_top_level(k, (depth - 1) as nat);
    }
}

/// The pictures and the settings of a frame while it is coded.
pub struct FrameState<T> {
    pub sb_size_log2: usize,
    pub input: Arc<Frame<T>>,
    /// The input at half the resolution, where it is wanted.
    pub input_hres: Option<Arc<Plane<T>>>,
    /// The input at a quarter of the resolution, where it is wanted.
    pub input_qres: Option<Arc<Plane<T>>>,
    pub rec: Arc<Frame<T>>,
    pub context_update_tile_id: usize,
    pub max_tile_size_bytes: u32,
    pub deblock: DeblockState,
    pub segmentation: SegmentationState,
    pub enc_stats: EncoderStats,
}

/// A rectangle of samples that a tile covers.
#[derive(Clone, Copy, Debug, PartialEq, Eq, Structural)]
pub struct TileRect {
    pub x: usize,
    pub y: usize,
    pub width: usize,
    pub height: usize,
}

impl<T> FrameState<T> {
    /// The settings are those from which a frame starts.
    pub open spec fn starts(&self, fi: FrameInvariants) -> bool {
        &&& self.sb_size_log2 == fi.sequence.tiling.sb_size_log2
        &&& self.context_update_tile_id == 0
        &&& self.max_tile_size_bytes == 0
        &&& self.deblock.is_default()
        &&& self.segmentation.is_default()
        &&& self.enc_stats.is_empty()
    }

    /// The state from which a frame without input starts: a blank frame of its size takes
    /// the place of the input.
    pub fn new(
        fi: &FrameInvariants,
        blank: Arc<Frame<T>>,
        hres: Arc<Plane<T>>,
        qres: Arc<Plane<T>>,
        rec: Arc<Frame<T>>,
    ) -> (r: Self)
        requires
            blank.planes.len() > 0,
            blank.planes@[0].cfg.width == fi.header.width,
            blank.planes@[0].cfg.height == fi.header.height,
        ensures
            r.starts(*fi),
            r.input == blank,
            r.rec == rec,
            r.input_hres == Some(hres),
            r.input_qres == Some(qres),
            r.input.planes@[0].cfg.width == fi.header.width,
            r.input.planes@[0].cfg.height == fi.header.height,
    {
        Self::new_with_frame(fi, blank, hres, qres, rec)
    }

    /// The state from which a frame starts, with its input at the two lower
    /// resolutions and the frame that it is reconstructed into.
    pub fn new_with_frame(
        fi: &FrameInvariants,
        frame: Arc<Frame<T>>,
        hres: Arc<Plane<T>>,
        qres: Arc<Plane<T>>,
        rec: Arc<Frame<T>>,
    ) -> (r: Self)
        ensures
            r.starts(*fi),
            r.input == frame,
            r.rec == rec,
            r.input_hres == Some(hres),
            r.input_qres == Some(qres),
    {
        FrameState {
            sb_size_log2: fi.sb_size_log2(),
            input: frame,
            input_hres: Some(hres),
            input_qres: Some(qres),
            rec,
            context_update_tile_id: 0,
            max_tile_size_bytes: 0,
            deblock: DeblockState::default(),
            segmentation: SegmentationState::default(),
            enc_stats: EncoderStats::default(),
        }
    }

    /// The state from which costs are estimated, without the lower resolutions.
    pub fn new_with_frame_and_me_stats_and_rec(
        fi: &FrameInvariants,
        frame: Arc<Frame<T>>,
        rec: Arc<Frame<T>>,
    ) -> (r: Self)
        ensures
            r.starts(*fi),
            r.input == frame,
            r.rec == rec,
            r.input_hres is None,
            r.input_qres is None,
    {
        FrameState {
            sb_size_log2: fi.sb_size_log2(),
            input: frame,
            input_hres: None,
            input_qres: None,
            rec,
            context_update_tile_id: 0,
            max_tile_size_bytes: 0,
            deblock: DeblockState::default(),
            segmentation: SegmentationState::default(),
            enc_stats: EncoderStats::default(),
        }
    }

    /// The tile that covers the whole frame.
    pub fn whole_tile(&self) -> (r: TileRect)
        requires
            self.rec.planes.len() > 0,
        ensures
            r == self.one_tile(),
    {
        let cfg: PlaneConfig = self.rec.planes[0].cfg;
        TileRect { x: 0, y: 0, width: cfg.width, height: cfg.height }
    }

    /// Does something to the frame as one tile: `f` gets the tile that covers the whole
    /// frame, and the base two logarithm of a superblock's side.
    pub fn apply_tile_state_mut<R, F: FnOnce(TileRect, usize) -> R>(&self, f: F) -> (r: R)
        requires
            self.rec.planes.len() > 0,
            call_requires(f, (self.one_tile(), self.sb_size_log2)),
        ensures
            call_ensures(f, (self.one_tile(), self.sb_size_log2), r),
    {
        f(self.whole_tile(), self.sb_size_log2)
    }

    /// The tile that covers the whole frame.
    pub open spec fn one_tile(&self) -> TileRect {
        TileRect { x: 0, y: 0, width: self.rec.planes@[0].cfg.width, height: self.rec.planes@[0].cfg.height }
    }
}

/// Every reference of a frame is one of the slots.
pub proof fn law_references_are_slots(c: InterConfig, p: FramePosition, i: int)
    requires
        p.wf(c),
        0 <= i < 7,
    ensures
        0 <= reference_slots(c, p)[i] < 8,
{
    let d = c.pyramid_depth as nat;
    lemma_slot((p.order_hint + p.step(c)) as nat, d);
    if p.level > 0 {
        lemma_slot((p.order_hint - p.step(c)) as nat, d);
    }
}

/// A level is at most the depth, and so a slot is one of eight.
proof fn lemma_slot(oh: nat, depth: nat)
    requires
        depth <= 4,
    ensures
        0 <= slot_of(oh, depth) < 8,
{
    lemma_level_within(oh, depth);
}

proof fn lemma_level_within(pos: nat, depth: nat)
    ensures
        level_of(pos, depth) <= depth,
    decreases depth,
{
    if depth > 0 && pos % 2 == 0 {
        lemma_level_within(pos / 2, (depth - 1) as nat);
    }
}

/// The seed of film grain is never zero after a frame.
pub proof fn law_grain_seed_is_never_zero(seed: u16, default_seed: u16)
    requires
        default_seed != 0,
    ensures
        next_seed(seed, default_seed) != 0,
{
}

/// A position is on the level that its factors of two give it: on the top level are the
/// multiples of the group's length, and each level below holds the odd multiples of half
/// the distance of the level above.
pub proof fn law_levels_go_by_factors_of_two(k: nat, l: nat, depth: nat)
    requires
        l <= depth,
    ensures
        level_of((2 * k + 1) * pow2((depth - l) as nat), depth) == l || l == 0,
        level_of(k * pow2(depth), depth) == 0,
    decreases depth,
{
    law_group_starts_on_the_top_level(k, depth);
    if l == depth {
        lemma2_to64();
        assert((2 * k + 1) * pow2(0) == 2 * k + 1) by (nonlinear_arith)
            requires pow2(0) == 1;
    } else {
        let e = (depth - l) as nat;
        let p = pow2((e - 1) as nat);
        let q = 2 * k + 1;
        lemma_pow2_unfold(e);
        assert(q * pow2(e) == 2 * (q * p)) by (nonlinear_arith)
            requires pow2(e) == 2 * p;
        law_levels_go_by_factors_of_two(k, l, (depth - 1) as nat);
        assert((depth - 1 - l) as nat == (e - 1) as nat);
    }
}

/// Every position is a multiple of the group's length, or an odd multiple of the distance
/// that its level below the top has.
pub proof fn law_every_position_has_a_level(pos: nat, depth: nat) -> (k: nat)
    ensures
        level_of(pos, depth) <= depth,
        level_of(pos, depth) == 0 ==> pos == k * pow2(depth),
        level_of(pos, depth) > 0 ==> pos == (2 * k + 1) * pow2((depth - level_of(pos, depth)) as nat),
    decreases depth,
{
    lemma2_to64();
    if depth == 0 {
        assert(pos * pow2(0) == pos) by (nonlinear_arith)
            requires pow2(0) == 1;
        pos
    } else if pos % 2 == 1 {
        let k = pos / 2;
        assert((2 * k + 1) * pow2(0) == 2 * k + 1) by (nonlinear_arith)
            requires pow2(0) == 1;
        k
    } else {
        let k = law_every_position_has_a_level(pos / 2, (depth - 1) as nat);
        let l = level_of(pos / 2, (depth - 1) as nat);
        lemma_pow2_unfold((depth - l) as nat);
        lemma_pow2_unfold(depth);
        let (a, b) = (pow2((depth - l - 1) as nat), pow2((depth - 1) as nat));
        assert(2 * ((2 * k + 1) * a) == (2 * k + 1) * (2 * a)) by (nonlinear_arith);
        assert(2 * (k * b) == k * (2 * b)) by (nonlinear_arith);
        k
    }
}

/// The frames of the top level take turns in the first four slots, one after the other,
/// so that each keeps its slot until the fourth after it.
pub proof fn law_top_level_takes_turns(k: nat, j: nat, depth: nat)
    ensures
        ({
            let a = slot_of(k * pow2(depth), depth);
            let b = slot_of(j * pow2(depth), depth);
            let next = slot_of((k + 1) * pow2(depth), depth);
            &&& 0 <= a < 4
            &&& next == if a == 3 { 0 } else { a + 1 }
            &&& slot_of((k + 4) * pow2(depth), depth) == a
            &&& a == b <==> (k - j) % 4 == 0
            &&& k < 4 ==> a == k
        }),
{
    lemma_anchor_slot(k, depth);
    lemma_anchor_slot(j, depth);
    lemma_anchor_slot(k + 1, depth);
    lemma_anchor_slot(k + 4, depth);
}

proof fn lemma_anchor_slot(k: nat, depth: nat)
    ensures
        slot_of(k * pow2(depth), depth) == k % 4,
{
    law_group_starts_on_the_top_level(k, depth);
    let p = pow2(depth) as int;
    lemma_pow2_pos(depth);
    vstd::arithmetic::div_mod::lemma_fundamental_div_mod_converse(k * p, p, k as int, 0);
    assert((k * pow2(depth)) as int == k * p);
}

/// Each level below the top has one slot of its own, after the first four in the order of
/// the levels.
pub proof fn law_lower_levels_have_their_slots(k: nat, l: nat, depth: nat)
    requires
        0 < l <= depth,
    ensures
        slot_of((2 * k + 1) * pow2((depth - l) as nat), depth) == 3 + l,
{
    law_levels_go_by_factors_of_two(k, l, depth);
}

/// The order hints that the slots hold after a frame is kept in those its flags name.
pub open spec fn keep(held: Seq<int>, flags: u32, order_hint: int) -> Seq<int> {
    Seq::new(8, |i: int| if has_flag(flags, i) { order_hint } else { held[i] })
}

/// The slots of a frame below the top level, of the frame before it and of the frame after
/// it on a higher level are three.
proof fn lemma_neighbours_apart(oh: nat, depth: nat)
    requires
        level_of(oh, depth) > 0,
        depth <= 4,
    ensures
        ({
            let s = pow2((depth - level_of(oh, depth)) as nat);
            &&& s <= oh
            &&& slot_of((oh - s) as nat, depth) != slot_of(oh + s, depth)
            &&& slot_of((oh - s) as nat, depth) != slot_of(oh, depth)
            &&& slot_of(oh + s, depth) != slot_of(oh, depth)
        }),
{
    let l = level_of(oh, depth);
    lemma_level_within(oh, depth);
    let k = law_every_position_has_a_level(oh, depth);
    let e = (depth - l) as nat;
    let s = pow2(e);
    let b = (oh - s) as nat;
    let a = (oh + s) as nat;
    lemma_pow2_unfold(e + 1);
    assert(oh == (2 * k + 1) * s);
    assert((2 * k + 1) * s == k * (2 * s) + s && (k + 1) * (2 * s) == k * (2 * s) + 2 * s) by (nonlinear_arith);
    assert(b == k * pow2(e + 1) && a == (k + 1) * pow2(e + 1));
    if l == 1 {
        lemma_anchor_slot(k, depth);
        lemma_anchor_slot(k + 1, depth);
    } else {
        lemma_even_or_odd(k, (l - 1) as nat, depth);
        lemma_even_or_odd(k + 1, (l - 1) as nat, depth);
        lemma_slot_order(k, (l - 1) as nat, depth);
        lemma_slot_order(k + 1, (l - 1) as nat, depth);
    }
}

/// A multiple of a level's distance is on that level if it is odd, and higher if it is even.
proof fn lemma_even_or_odd(k: nat, l: nat, depth: nat)
    requires
        0 < l <= depth,
    ensures
        k % 2 == 1 ==> level_of(k * pow2((depth - l) as nat), depth) == l,
        k % 2 == 0 ==> level_of(k * pow2((depth - l) as nat), depth) < l,
{
    let e = (depth - l) as nat;
    if k % 2 == 1 {
        law_levels_go_by_factors_of_two(k / 2, l, depth);
        assert(2 * (k / 2) + 1 == k);
    } else {
        lemma_level_below(k, e, depth);
        lemma_pow2_unfold(e + 1);
        let (h, p) = (k / 2, pow2(e));
        assert(k == 2 * h);
        assert((2 * h) * p == h * (2 * p)) by (nonlinear_arith);
        lemma_level_below(h, e + 1, depth);
    }
}

/// A multiple of a power of two is on none of the levels for smaller powers.
proof fn lemma_level_below(k: nat, e: nat, depth: nat)
    requires
        e <= depth,
    ensures
        level_of(k * pow2(e), depth) <= depth - e,
    decreases e,
{
    if e == 0 {
        lemma_level_within(k * pow2(e), depth);
    } else {
        let p = pow2((e - 1) as nat);
        lemma_pow2_unfold(e);
        assert(k * pow2(e) == 2 * (k * p)) by (nonlinear_arith)
            requires pow2(e) == 2 * p;
        lemma_level_below(k, (e - 1) as nat, (depth - 1) as nat);
    }
}

proof fn lemma_slot_order(k: nat, l: nat, depth: nat)
    requires
        0 < l <= depth,
    ensures
        ({
            let slot = slot_of(k * pow2((depth - l) as nat), depth);
            &&& k % 2 == 1 ==> slot == 3 + l
            &&& k % 2 == 0 ==> 0 <= slot < 3 + l
        }),
{
    lemma_even_or_odd(k, l, depth);
}

/// The order hints that a frame's references have, after the frames around it were kept.
///
/// Below the top level the frame before and the frame after, at the distance of the frame's
/// level, are kept in slots of their own, whichever was coded first: the references name
/// exactly those, one the frame after, one the last of the frame's own level, and the
/// others the frame before.
pub proof fn law_references_hold_the_neighbours(
    h: FrameHeader,
    s: Sequence,
    c: InterConfig,
    p: FramePosition,
    before: FramePosition,
    after: FramePosition,
    held: Seq<int>,
    n: u64,
    i: int,
)
    requires
        c.pyramid_depth <= 4,
        c.group_input_len == pow2(c.pyramid_depth as nat),
        c.switch_frame_interval == 0,
        p.level == level_of(p.order_hint as nat, c.pyramid_depth as nat),
        p.level > 0,
        p.slot_idx == slot_of(p.order_hint as nat, c.pyramid_depth as nat),
        before.order_hint == p.order_hint - pow2((c.pyramid_depth - p.level) as nat),
        after.order_hint == p.order_hint + pow2((c.pyramid_depth - p.level) as nat),
        before.slot_idx == slot_of(before.order_hint as nat, c.pyramid_depth as nat),
        after.slot_idx == slot_of(after.order_hint as nat, c.pyramid_depth as nat),
        !before.show_existing_frame,
        !after.show_existing_frame,
        held.len() == 8,
        0 <= i < 7,
    ensures
        ({
            let f1 = inter_header(h, s, c, before, n, false, 0, None).refresh_frame_flags;
            let f2 = inter_header(h, s, c, after, n, false, 0, None).refresh_frame_flags;
            let one = keep(keep(held, f1, before.order_hint as int), f2, after.order_hint as int);
            let other = keep(keep(held, f2, after.order_hint as int), f1, before.order_hint as int);
            let slot = reference_slots(c, p)[i];
            let second = if p.idx_in_group_output == 0 { 1int } else { 6 };
            &&& i == second ==> one[slot] == after.order_hint && other[slot] == after.order_hint
            &&& i == 2 ==> slot == p.slot_idx && one[slot] == held[slot] && other[slot] == held[slot]
            &&& i != second && i != 2 ==> one[slot] == before.order_hint && other[slot] == before.order_hint
        }),
{
    let d = c.pyramid_depth as nat;
    let l = p.level as nat;
    let oh = p.order_hint as nat;
    reveal(inter_header);
    lemma_level_within(oh, d);
    lemma_neighbours_apart(oh, d);
    let e = (d - l) as nat;
    lemma_pow2_adds(e, l);
    lemma_pow2_pos(l);
    let (a, b) = (pow2(e) as int, pow2(l) as int);
    assert(e + l == d);
    assert(a * b == pow2(d));
    vstd::arithmetic::div_mod::lemma_fundamental_div_mod_converse(pow2(d) as int, b, a, 0);
    assert(p.step(c) == pow2(e));
    lemma_slot(before.order_hint as nat, d);
    lemma_slot(after.order_hint as nat, d);
    lemma_slot(oh, d);
    let slot = reference_slots(c, p)[i];
    law_refresh_flags_name_slots(before.slot_idx as int, slot);
    law_refresh_flags_name_slots(after.slot_idx as int, slot);
}

/// On the top level the references name the frame before, and with several references one
/// names the second frame before, once both are kept.
pub proof fn law_top_references_hold_the_last(
    h: FrameHeader,
    s: Sequence,
    c: InterConfig,
    p: FramePosition,
    first: FramePosition,
    last: FramePosition,
    held: Seq<int>,
    k: nat,
    n: u64,
    i: int,
)
    requires
        c.pyramid_depth <= 4,
        c.switch_frame_interval == 0,
        p.level == 0,
        first.order_hint == k * pow2(c.pyramid_depth as nat),
        last.order_hint == (k + 1) * pow2(c.pyramid_depth as nat),
        p.order_hint == (k + 2) * pow2(c.pyramid_depth as nat),
        first.slot_idx == slot_of(first.order_hint as nat, c.pyramid_depth as nat),
        last.slot_idx == slot_of(last.order_hint as nat, c.pyramid_depth as nat),
        p.slot_idx == slot_of(p.order_hint as nat, c.pyramid_depth as nat),
        !first.show_existing_frame,
        !last.show_existing_frame,
        held.len() == 8,
        0 <= i < 7,
    ensures
        ({
            let f1 = inter_header(h, s, c, first, n, false, 0, None).refresh_frame_flags;
            let f2 = inter_header(h, s, c, last, n, false, 0, None).refresh_frame_flags;
            let kept = keep(keep(held, f1, first.order_hint as int), f2, last.order_hint as int);
            let slot = reference_slots(c, p)[i];
            let second = if p.idx_in_group_output == 0 { 1int } else { 6 };
            &&& c.multiref && i == second ==> kept[slot] == first.order_hint
            &&& !c.multiref || i != second ==> kept[slot] == last.order_hint
        }),
{
    let d = c.pyramid_depth as nat;
    reveal(inter_header);
    lemma_anchor_slot(k, d);
    lemma_anchor_slot(k + 1, d);
    lemma_anchor_slot(k + 2, d);
    let slot = reference_slots(c, p)[i];
    law_refresh_flags_name_slots(first.slot_idx as int, slot);
    law_refresh_flags_name_slots(last.slot_idx as int, slot);
}

/// A frame is kept in its own slot and in no other; one that only shows another is kept in
/// none, and a switch frame in all.
pub proof fn law_frames_are_kept_in_their_slots(
    h: FrameHeader,
    s: Sequence,
    c: InterConfig,
    p: FramePosition,
    n: u64,
    error_resilient: bool,
    primref_max_level: u64,
    probe: Option<u8>,
    i: int,
)
    requires
        p.wf(c),
        0 <= i < 8,
    ensures
        ({
            let r = inter_header(h, s, c, p, n, error_resilient, primref_max_level, probe);
            let kept = has_flag(r.refresh_frame_flags, i);
            &&& r.frame_type == FrameType::SWITCH ==> kept
            &&& r.frame_type != FrameType::SWITCH && p.show_existing_frame ==> !kept
            &&& r.frame_type != FrameType::SWITCH && !p.show_existing_frame ==> kept == (i == p.slot_idx)
            &&& r.frame_to_show_map_idx == p.slot_idx
        }),
{
    reveal(inter_header);
    law_refresh_flags_name_slots(p.slot_idx as int, i);
}

/// Flags are read bit by bit: each slot that is named adds its power of two.
pub proof fn law_flags_are_bits(flags: u32)
    ensures
        flags % 256 == (if has_flag(flags, 0) { 1int } else { 0 }) + (if has_flag(flags, 1) { 2int } else { 0 }) + (if has_flag(flags, 2) {
            4int
        } else {
            0
        }) + (if has_flag(flags, 3) { 8int } else { 0 }) + (if has_flag(flags, 4) { 16int } else { 0 }) + (if has_flag(flags, 5) { 32int } else { 0 }) + (if has_flag(
            flags,
            6,
        ) { 64int } else { 0 }) + (if has_flag(flags, 7) { 128int } else { 0 }),
{
    lemma2_to64();
    let f = flags as int;
    assert(f / 1 == f);
    crate::util::lemma_div_halves(f, 1);
    crate::util::lemma_div_halves(f, 2);
    crate::util::lemma_div_halves(f, 4);
    crate::util::lemma_div_halves(f, 8);
    crate::util::lemma_div_halves(f, 16);
    crate::util::lemma_div_halves(f, 32);
    crate::util::lemma_div_halves(f, 64);
    crate::util::lemma_div_halves(f, 128);
    lemma_bits(f, f / 2, f / 4, f / 8, f / 16, f / 32, f / 64, f / 128, f / 256);
}

/// A number by its bits.
proof fn lemma_bits(f: int, f1: int, f2: int, f3: int, f4: int, f5: int, f6: int, f7: int, f8: int)
    requires
        f1 == f / 2,
        f2 == f1 / 2,
        f3 == f2 / 2,
        f4 == f3 / 2,
        f5 == f4 / 2,
        f6 == f5 / 2,
        f7 == f6 / 2,
        f8 == f7 / 2,
    ensures
        f % 256 == f % 2 + 2 * (f1 % 2) + 4 * (f2 % 2) + 8 * (f3 % 2) + 16 * (f4 % 2) + 32 * (f5 % 2) + 64 * (f6 % 2) + 128 * (f7 % 2),
{
    let r = f % 2 + 2 * (f1 % 2) + 4 * (f2 % 2) + 8 * (f3 % 2) + 16 * (f4 % 2) + 32 * (f5 % 2) + 64 * (f6 % 2) + 128 * (f7 % 2);
    assert(f == f8 * 256 + r && 0 <= r < 256);
    vstd::arithmetic::div_mod::lemma_fundamental_div_mod_converse(f, 256, f8, r);
}

/// So many intervals.
pub open spec fn times(interval: int, k: int) -> int {
    interval * k
}

/// What the header of an inter frame says of its kind: a switch frame comes only on the
/// top level, at a multiple of the interval; it depends on no other and gives its size. A
/// frame inherits probabilities from the last of its level, unless it must stand alone or
/// its level is too deep.
pub proof fn law_inter_headers_follow_the_position(
    h: FrameHeader,
    s: Sequence,
    c: InterConfig,
    p: FramePosition,
    n: u64,
    error_resilient: bool,
    primref_max_level: u64,
    probe: Option<u8>,
)
    requires
        p.wf(c),
    ensures
        ({
            let r = inter_header(h, s, c, p, n, error_resilient, primref_max_level, probe);
            let switch = r.frame_type == FrameType::SWITCH;
            let size_differs = h.width != s.max_frame_width || h.height != s.max_frame_height;
            &&& switch || r.frame_type == FrameType::INTER
            &&& switch <==> p.level == 0 && c.switch_frame_interval != 0 && exists|k: int| #[trigger] times(c.switch_frame_interval as int, k) == n
            &&& r.error_resilient <==> switch || error_resilient
            &&& r.frame_size_override_flag <==> switch || !s.reduced_still_picture_hdr && (size_differs || !error_resilient && h.render_and_frame_size_different)
            &&& r.primary_ref_frame == 7 || r.primary_ref_frame == 2
            &&& r.primary_ref_frame == 2 <==> !r.error_resilient && p.level <= primref_max_level
            &&& p.level > 0 ==> reference_slots(c, p)[2] == p.slot_idx
            &&& r.reference_mode == ReferenceMode::SELECT <==> c.multiref && p.idx_in_group_output > 0
            &&& r.reference_mode == ReferenceMode::SINGLE <==> !c.multiref || p.idx_in_group_output == 0
            &&& r.me_range_scale * pow2(p.level as nat) <= c.group_input_len < (r.me_range_scale + 1) * pow2(p.level as nat)
            &&& !r.intra_only && r.force_integer_mv == 0
            &&& r.idx_in_group_output == p.idx_in_group_output
            &&& r.order_hint == p.order_hint
            &&& r.pyramid_level == p.level
            &&& r.input_frameno == p.input_frameno
            &&& r.show_frame == p.show_frame
            &&& r.carries_metadata == p.show_frame
            &&& r.tx_mode_select == h.enable_inter_txfm_split
            &&& probe is None ==> r.default_filter == h.default_filter
            &&& probe == Some(1u8) ==> r.default_filter == FilterMode::SMOOTH
            &&& probe == Some(2u8) ==> r.default_filter == FilterMode::SHARP
            &&& probe is Some && probe != Some(1u8) && probe != Some(2u8) ==> r.default_filter == FilterMode::REGULAR
        }),
{
    reveal(inter_header);
    let i = c.switch_frame_interval as int;
    if i > 0 {
        vstd::arithmetic::div_mod::lemma_fundamental_div_mod(n as int, i);
        let q = n as int / i;
        assert(q * i == i * q) by (nonlinear_arith);
        if exists|k: int| #[trigger] times(i, k) == n {
            let k = choose|k: int| #[trigger] times(i, k) == n;
            assert(i * k == k * i) by (nonlinear_arith);
            vstd::arithmetic::div_mod::lemma_fundamental_div_mod_converse(n as int, i, k, 0);
        }
        if n as int % i == 0 {
            assert(times(i, q) == n);
        }
    }
    let d = pow2(p.level as nat) as int;
    let g = c.group_input_len as int;
    lemma_pow2_pos(p.level as nat);
    vstd::arithmetic::div_mod::lemma_fundamental_div_mod(g, d);
    vstd::arithmetic::div_mod::lemma_mod_bound(g, d);
    let q = g / d;
    assert(0 <= q <= g) by (nonlinear_arith)
        requires g == d * q + g % d, 0 <= g % d < d, g >= 0, d >= 1;
    assert(q * d <= g < (q + 1) * d) by (nonlinear_arith)
        requires g == d * q + g % d, 0 <= g % d < d;
}

/// What an inter frame does not set, it has from the frame before.
pub proof fn law_inter_headers_keep_the_rest(
    h: FrameHeader,
    s: Sequence,
    c: InterConfig,
    p: FramePosition,
    n: u64,
    error_resilient: bool,
    primref_max_level: u64,
    probe: Option<u8>,
)
    ensures
        ({
            let r = inter_header(h, s, c, p, n, error_resilient, primref_max_level, probe);
            &&& r.width == h.width && r.height == h.height
            &&& r.render_width == h.render_width && r.render_height == h.render_height
            &&& r.render_and_frame_size_different == h.render_and_frame_size_different
            &&& r.sb_width == h.sb_width && r.sb_height == h.sb_height
            &&& r.w_in_b == h.w_in_b && r.h_in_b == h.h_in_b
            &&& r.showable_frame == h.showable_frame
            &&& r.allow_high_precision_mv == h.allow_high_precision_mv
            &&& r.use_reduced_tx_set == h.use_reduced_tx_set
            &&& r.use_prev_frame_mvs == h.use_prev_frame_mvs
            &&& r.partition_range == h.partition_range
            &&& r.allow_screen_content_tools == h.allow_screen_content_tools
            &&& r.cdef_damping == h.cdef_damping && r.cdef_bits == h.cdef_bits
            &&& r.base_q_idx == h.base_q_idx && r.delta_q_present == h.delta_q_present
            &&& r.use_tx_domain_distortion == h.use_tx_domain_distortion
            &&& r.use_tx_domain_rate == h.use_tx_domain_rate
            &&& r.enable_early_exit == h.enable_early_exit
            &&& r.enable_inter_txfm_split == h.enable_inter_txfm_split
            &&& r.enable_segmentation == h.enable_segmentation
        }),
{
    reveal(inter_header);
}

/// Film grain goes by time: the segment whose seed moves on covers the frame's time, and
/// no segment before it does. No other segment changes, and of that one only the seed.
pub proof fn law_grain_goes_by_time(s: Seq<GrainSegment>, shown: bool, time: int, default_seed: u16)
    ensures
        ({
            let t = grain_after(s, shown, time, default_seed);
            let covers = |i: int| 0 <= i < s.len() && s[i].start_time <= time && time < s[i].end_time;
            &&& t.len() == s.len()
            &&& !shown ==> t == s
            &&& shown ==> forall|i: int|
                0 <= i < s.len() ==> {
                    let first = covers(i) && (forall|j: int| 0 <= j < i ==> !(#[trigger] covers(j)));
                    &&& !first ==> #[trigger] t[i] == s[i]
                    &&& first ==> {
                        &&& t[i] == (GrainSegment { random_seed: t[i].random_seed, ..s[i] })
                        &&& s[i].random_seed + 3248 == 65536 ==> t[i].random_seed == default_seed
                        &&& s[i].random_seed + 3248 < 65536 ==> t[i].random_seed == s[i].random_seed + 3248
                        &&& s[i].random_seed + 3248 > 65536 ==> t[i].random_seed == s[i].random_seed + 3248 - 65536
                    }
                }
        }),
{
    let covers = |i: int| 0 <= i < s.len() && s[i].start_time <= time && time < s[i].end_time;
    lemma_first_covering(s, time, 0);
    let t = grain_after(s, shown, time, default_seed);
    if shown {
        assert forall|i: int| 0 <= i < s.len() implies {
            let first = covers(i) && (forall|j: int| 0 <= j < i ==> !(#[trigger] covers(j)));
            &&& !first ==> #[trigger] t[i] == s[i]
            &&& first ==> {
                &&& t[i] == (GrainSegment { random_seed: t[i].random_seed, ..s[i] })
                &&& s[i].random_seed + 3248 == 65536 ==> t[i].random_seed == default_seed
                &&& s[i].random_seed + 3248 < 65536 ==> t[i].random_seed == s[i].random_seed + 3248
                &&& s[i].random_seed + 3248 > 65536 ==> t[i].random_seed == s[i].random_seed + 3248 - 65536
            }
        } by {
            let first = covers(i) && (forall|j: int| 0 <= j < i ==> !(#[trigger] covers(j)));
            match first_covering(s, time, 0) {
                Some(k) => {
                    assert(covers(k));
                    if first {
                        if k < i {
                            assert(!covers(k));
                        }
                        assert(i == k);
                    } else if i == k {
                        assert forall|j: int| 0 <= j < i implies !(#[trigger] covers(j)) by {
                            assert(!(s[j].start_time <= time < s[j].end_time));
                        }
                    }
                },
                None => {
                    assert(!(s[i].start_time <= time < s[i].end_time));
                },
            }
        }
    }
}

proof fn lemma_first_covering(s: Seq<GrainSegment>, time: int, from: int)
    requires
        0 <= from,
    ensures
        match first_covering(s, time, from) {
            Some(i) => {
                &&& from <= i < s.len()
                &&& s[i].start_time <= time < s[i].end_time
                &&& forall|j: int| from <= j < i ==> !((#[trigger] s[j]).start_time <= time < s[j].end_time)
            },
            None => forall|j: int| from <= j < s.len() ==> !((#[trigger] s[j]).start_time <= time < s[j].end_time),
        },
    decreases s.len() - from,
{
    if from < s.len() && !(s[from].start_time <= time < s[from].end_time) {
        lemma_first_covering(s, time, from + 1);
    }
}

/// A frame's time is that of its number in units of the time base, to the unit below.
pub proof fn law_timestamps_round_down(fi: &FrameInvariants)
    requires
        fi.timed(),
    ensures
        ({
            let exact = fi.header.input_frameno * 10_000_000 * fi.sequence.time_base.num;
            let den = fi.sequence.time_base.den;
            fi.timestamp() * den <= exact < (fi.timestamp() + 1) * den
        }),
{
    let exact = fi.header.input_frameno * 10_000_000 * fi.sequence.time_base.num;
    let den = fi.sequence.time_base.den as int;
    let q = fi.timestamp();
    vstd::arithmetic::div_mod::lemma_fundamental_div_mod(exact, den);
    vstd::arithmetic::div_mod::lemma_mod_bound(exact, den);
    assert(q * den <= exact < (q + 1) * den) by (nonlinear_arith)
        requires exact == den * q + exact % den, 0 <= exact % den < den;
}

/// A reference comes later in time if its order hint does, as long as the two are less than
/// half the range of hints apart.
pub proof fn law_later_references_have_later_hints(fi: &FrameInvariants, i: int)
    requires
        0 <= i < 7,
        ({
            let m = pow2(fi.sequence.order_hint_bits_minus_1 as nat) as int;
            fi.rec_buffer.frames@[fi.ref_frames@[i] as int] matches Some(rec) ==> -m <= rec.order_hint - fi.header.order_hint < m
        }),
    ensures
        fi.is_later(i) <==> fi.sequence.enable_order_hint && (fi.rec_buffer.frames@[fi.ref_frames@[i] as int] matches Some(rec) && rec.order_hint
            > fi.header.order_hint),
{
    if let Some(rec) = fi.rec_buffer.frames@[fi.ref_frames@[i] as int] {
        crate::encoder::sequence::law_near_hints_are_at_their_difference(
            fi.sequence.order_hint_bits_minus_1 as nat,
            rec.order_hint as int,
            fi.header.order_hint as int,
        );
    }
}

/// A frame's superblocks and its blocks of eight samples cover it, and no row or column of
/// them lies past its edge; a block of eight holds two of four either way.
pub proof fn law_blocks_cover_the_frame(c: FrameConfig, s: Sequence)
    requires
        c.width <= 0x10000,
        c.height <= 0x10000,
    ensures
        ({
            let h = first_header(c, s);
            &&& 64 * h.sb_width - 64 < c.width <= 64 * h.sb_width
            &&& 64 * h.sb_height - 64 < c.height <= 64 * h.sb_height
            &&& 4 * h.w_in_b - 8 < c.width <= 4 * h.w_in_b
            &&& 4 * h.h_in_b - 8 < c.height <= 4 * h.h_in_b
            &&& h.w_in_b % 2 == 0
            &&& h.h_in_b % 2 == 0
            &&& h.w_in_b <= 16 * h.sb_width
            &&& h.h_in_b <= 16 * h.sb_height
        }),
{
}

/// A new header names its size only where it is not the sequence's, and its display only
/// where that is not the size. Rates from the transform bring distortions from it; without
/// them a distortion is taken there only where the noise is what is tuned for.
pub proof fn law_new_headers_follow_their_settings(c: FrameConfig, s: Sequence)
    requires
        c.render_width <= u32::MAX,
        c.render_height <= u32::MAX,
    ensures
        ({
            let h = first_header(c, s);
            &&& h.width == c.width
            &&& h.height == c.height
            &&& h.render_width == c.render_width
            &&& h.render_height == c.render_height
            &&& !h.frame_size_override_flag <==> h.width == s.max_frame_width && h.height == s.max_frame_height
            &&& !h.render_and_frame_size_different <==> h.render_width == h.width && h.render_height == h.height
            &&& h.base_q_idx == c.quantizer
            &&& h.frame_type == FrameType::KEY && h.intra_only && h.show_frame
            &&& h.refresh_frame_flags == 255
            &&& h.primary_ref_frame >= 7
            &&& h.use_tx_domain_rate ==> h.use_tx_domain_distortion
            &&& h.use_tx_domain_rate <==> c.tx_domain_rate || c.txrate
            &&& h.use_tx_domain_distortion && !h.use_tx_domain_rate ==> c.tx_domain_distortion && c.tune == Tune::Psnr
            &&& c.tx_domain_distortion && c.tune == Tune::Psnr ==> h.use_tx_domain_distortion
            &&& h.enable_early_exit != c.no_early_exit
            &&& h.showable_frame != h.disable_frame_end_update_cdf
            &&& h.showable_frame != s.reduced_still_picture_hdr
            &&& h.enable_segmentation == c.segmentation
            &&& h.use_reduced_tx_set == c.reduced_tx_set
            &&& h.enable_inter_txfm_split == c.enable_inter_tx_split
            &&& h.partition_range == c.partition_range
            &&& h.allow_screen_content_tools == s.force_screen_content_tools
        }),
{
}

/// The grain of a time is that of the first segment which covers it; there is none only
/// where no segment does.
pub proof fn law_first_covering_segment_has_the_grain(f: &FrameInvariants, time: int, j: int)
    requires
        0 <= j < f.film_grain.len(),
    ensures
        ({
            let s = f.film_grain@;
            let here = s[j].start_time <= time && time < s[j].end_time;
            &&& here ==> (f.grain_at(time) matches Some(i) && i <= j)
            &&& f.grain_at(time) == Some(j) ==> here
            &&& f.grain_at(time) matches Some(i) ==> 0 <= i < s.len()
        }),
{
    lemma_first_covering(f.film_grain@, time, 0);
}

/// By default luma is filtered alike in both directions and twice as strongly as chroma, by
/// an eighth of the strongest level. Were its deltas in use, what is predicted within the
/// frame would be filtered more strongly than what comes from the nearest references, and
/// what comes from the three farthest less.
pub proof fn law_default_filtering_is_light(d: DeblockState, i: int)
    requires
        d.is_default(),
        0 <= i < 8,
    ensures
        d.levels@[0] == d.levels@[1],
        d.levels@[2] == d.levels@[3],
        d.levels@[0] == 2 * d.levels@[2],
        8 * d.levels@[0] == 64,
        d.sharpness == 0,
        !d.deltas_enabled && !d.delta_updates_enabled && !d.block_deltas_enabled && !d.block_delta_multi,
        d.ref_deltas@[0] + d.ref_deltas@[i] > 0 <==> i < 5,
        d.ref_deltas@[0] + d.ref_deltas@[i] == 0 <==> i >= 5,
        d.ref_deltas@[i] == d.ref_deltas@[0] <==> i == 0,
        d.ref_deltas@[0] == 1,
        d.mode_deltas@[0] == 0 && d.mode_deltas@[1] == 0,
        d.block_delta_shift == 0,
{
}

} // verus!
