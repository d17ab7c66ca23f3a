//! The settings of the experimental switches. Each reads the value of one
//! environment variable, handed in as `Option<&str>`; where it is unset, many
//! follow the speed tier. With every variable unset the encoder is as released.

use crate::text::{
    colon, eq_ignore_ascii_case, fields, lower, parse_i64, parse_u64, push_number, push_signed, same_text,
    same_word, signed_value, split_fields, split_once, texts_are, trim, trimmed, unsigned_value,
    within, written_number,
};
use crate::transform::TxSize;
use vstd::arithmetic::power::*;
use vstd::arithmetic::power2::*;
use vstd::prelude::*;
use vstd::string::*;

verus! {

/// The ladder of speed tiers, from least to most quality effort.
#[derive(Clone, Copy, Debug, PartialEq, Eq, PartialOrd, Ord, Structural)]
pub enum FastTier {
    Off,
    Clean,
    Turbo,
    Fast,
    Quality,
}

impl FastTier {
    /// The rung on the ladder.
    pub open spec fn rung(self) -> int {
        match self {
            FastTier::Off => 0,
            FastTier::Clean => 1,
            FastTier::Turbo => 2,
            FastTier::Fast => 3,
            FastTier::Quality => 4,
        }
    }

    /// Whether the tier is `Turbo` or above.
    pub fn turbo(self) -> (r: bool)
        ensures
            r == (self.rung() >= FastTier::Turbo.rung()),
    {
        match self {
            FastTier::Off | FastTier::Clean => false,
            _ => true,
        }
    }

    /// Whether the tier is `Fast` or above.
    pub fn fast(self) -> (r: bool)
        ensures
            r == (self.rung() >= FastTier::Fast.rung()),
    {
        match self {
            FastTier::Fast | FastTier::Quality => true,
            _ => false,
        }
    }
}

/// The tier that a value of `RAV1E_FAST` names.
pub open spec fn tier_named(s: Seq<char>) -> FastTier {
    let w = trimmed(s);
    if same_word(w, "clean"@) {
        FastTier::Clean
    } else if same_word(w, "turbo"@) {
        FastTier::Turbo
    } else if same_word(w, "1"@) || same_word(w, "on"@) || same_word(w, "fast"@) {
        FastTier::Fast
    } else if same_word(w, "quality"@) || same_word(w, "q"@) {
        FastTier::Quality
    } else {
        FastTier::Off
    }
}

/// `RAV1E_FAST`: the speed tier, off unless one is named.
pub fn fast_tier(v: Option<&str>) -> (r: FastTier)
    ensures
        r == (match v {
            Some(s) => tier_named(s@),
            None => FastTier::Off,
        }),
{
    match v {
        Some(s) => {
            let w = trim(s);
            if eq_ignore_ascii_case(w, "clean") {
                FastTier::Clean
            } else if eq_ignore_ascii_case(w, "turbo") {
                FastTier::Turbo
            } else if eq_ignore_ascii_case(w, "1") || eq_ignore_ascii_case(w, "on")
                || eq_ignore_ascii_case(w, "fast") {
                FastTier::Fast
            } else if eq_ignore_ascii_case(w, "quality") || eq_ignore_ascii_case(w, "q") {
                FastTier::Quality
            } else {
                FastTier::Off
            }
        },
        None => FastTier::Off,
    }
}

/// A switch that `1` turns on and any other value turns off.
pub open spec fn one(v: Option<&str>, unset: bool) -> bool {
    match v {
        Some(s) => trimmed(s@) == "1"@,
        None => unset,
    }
}

/// A switch that `1` or `on` turns on and any other value turns off.
pub open spec fn one_or_on(v: Option<&str>, unset: bool) -> bool {
    match v {
        Some(s) => trimmed(s@) == "1"@ || same_word(trimmed(s@), "on"@),
        None => unset,
    }
}

/// A switch that is on unless the value is `0`.
pub open spec fn not_zero(v: Option<&str>) -> bool {
    match v {
        Some(s) => trimmed(s@) != "0"@,
        None => true,
    }
}

/// A switch that is on unless the value is `0` or `off`.
pub open spec fn not_off(v: Option<&str>) -> bool {
    match v {
        Some(s) => trimmed(s@) != "0"@ && !same_word(trimmed(s@), "off"@),
        None => true,
    }
}

/// The unsigned number within `lo..=hi` that the value writes.
pub open spec fn number(v: Option<&str>, lo: int, hi: int) -> Option<int> {
    match v {
        Some(s) => within(unsigned_value(trimmed(s@)), lo, hi),
        None => None,
    }
}

/// The signed number that the value writes, where it fits `i64`.
pub open spec fn signed_number(v: Option<&str>) -> Option<int> {
    match v {
        Some(s) => within(signed_value(trimmed(s@)), i64::MIN as int, i64::MAX as int),
        None => None,
    }
}

/// A number, or another in its place.
pub open spec fn number_or(n: Option<int>, other: int) -> int {
    match n {
        Some(v) => v,
        None => other,
    }
}

/// Whether a value is one that stands for "off": empty, `0` or `off`.
pub open spec fn says_off(s: Seq<char>) -> bool {
    s == ""@ || s == "0"@ || s == "off"@
}

fn is_one(v: Option<&str>, unset: bool) -> (r: bool)
    ensures
        r == one(v, unset),
{
    match v {
        Some(s) => same_text(trim(s), "1"),
        None => unset,
    }
}

fn is_one_or_on(v: Option<&str>, unset: bool) -> (r: bool)
    ensures
        r == one_or_on(v, unset),
{
    match v {
        Some(s) => {
            let w = trim(s);
            same_text(w, "1") || eq_ignore_ascii_case(w, "on")
        },
        None => unset,
    }
}

fn is_not_zero(v: Option<&str>) -> (r: bool)
    ensures
        r == not_zero(v),
{
    match v {
        Some(s) => !same_text(trim(s), "0"),
        None => true,
    }
}

fn is_not_off(v: Option<&str>) -> (r: bool)
    ensures
        r == not_off(v),
{
    match v {
        Some(s) => {
            let w = trim(s);
            !same_text(w, "0") && !eq_ignore_ascii_case(w, "off")
        },
        None => true,
    }
}

fn is_off(s: &str) -> (r: bool)
    ensures
        r == says_off(s@),
{
    same_text(s, "") || same_text(s, "0") || same_text(s, "off")
}

fn read_u64(v: Option<&str>, lo: u64, hi: u64) -> (r: Option<u64>)
    ensures
        r is Some <==> number(v, lo as int, hi as int) is Some,
        r is Some ==> number(v, lo as int, hi as int) == Some(r->0 as int),
{
    match v {
        Some(s) => match parse_u64(trim(s)) {
            Some(n) => if lo <= n && n <= hi { Some(n) } else { None },
            None => None,
        },
        None => None,
    }
}

fn read_i64(v: Option<&str>) -> (r: Option<i64>)
    ensures
        r is Some <==> signed_number(v) is Some,
        r is Some ==> signed_number(v) == Some(r->0 as int),
{
    match v {
        Some(s) => parse_i64(trim(s)),
        None => None,
    }
}

fn read_usize(v: Option<&str>, lo: usize) -> (r: Option<usize>)
    ensures
        r is Some <==> number(v, lo as int, usize::MAX as int) is Some,
        r is Some ==> number(v, lo as int, usize::MAX as int) == Some(r->0 as int),
{
    match read_u64(v, lo as u64, usize::MAX as u64) {
        Some(n) => Some(n as usize),
        None => None,
    }
}

/// `RAV1E_TRELLIS`: whether levels are lowered by a rate-distortion pass. Unset, it follows the
/// tier from `Turbo` up.
pub fn trellis(v: Option<&str>, tier: FastTier) -> (r: bool)
    ensures
        r == one(v, tier.rung() >= FastTier::Turbo.rung()),
{
    is_one(v, tier.turbo())
}

/// `RAV1E_TRELLIS_ALL`: whether that pass runs on every block.
pub fn trellis_all(v: Option<&str>) -> (r: bool)
    ensures
        r == one(v, false),
{
    is_one(v, false)
}

/// `RAV1E_FASTRATE`: whether trials count flat bits by their length. Unset, it follows the
/// tier from `Turbo` up.
pub fn fastrate(v: Option<&str>, tier: FastTier) -> (r: bool)
    ensures
        r == one_or_on(v, tier.rung() >= FastTier::Turbo.rung()),
{
    is_one_or_on(v, tier.turbo())
}

/// `RAV1E_FASTSYM`: whether trials cost symbols by a table.
pub fn fastsym(v: Option<&str>) -> (r: bool)
    ensures
        r == one(v, false),
{
    is_one(v, false)
}

/// `RAV1E_FROZEN`: whether trials leave the distributions alone. Unset, it follows the
/// tier from `Turbo` up.
pub fn frozen(v: Option<&str>, tier: FastTier) -> (r: bool)
    ensures
        r == one_or_on(v, tier.rung() >= FastTier::Turbo.rung()),
{
    is_one_or_on(v, tier.turbo())
}

/// `RAV1E_LUMA_REUSE`: whether chroma trials reuse the luma of the first.
pub fn luma_reuse(v: Option<&str>) -> (r: bool)
    ensures
        r == one(v, false),
{
    is_one(v, false)
}

/// `RAV1E_ADAPTK`: the margin in percent within which candidates are tried.
pub fn adaptk(v: Option<&str>) -> (r: Option<u64>)
    ensures
        r is Some <==> number(v, 0, u64::MAX as int) is Some,
        r is Some ==> number(v, 0, u64::MAX as int) == Some(r->0 as int),
{
    read_u64(v, 0, u64::MAX)
}

/// `RAV1E_FASTCOEFF`: the factor by which trials subsample coefficient costs.
pub fn fastcoeff(v: Option<&str>) -> (r: Option<usize>)
    ensures
        r is Some <==> number(v, 1, usize::MAX as int) is Some,
        r is Some ==> number(v, 1, usize::MAX as int) == Some(r->0 as int),
{
    read_usize(v, 1)
}

/// `RAV1E_TXRATE`: whether trials cost coefficients by a table.
pub fn txrate(v: Option<&str>) -> (r: bool)
    ensures
        r == one(v, false),
{
    is_one(v, false)
}

/// `RAV1E_TXRATE_MUL`: the percentage that scales a rate estimate.
pub fn txrate_mul(v: Option<&str>) -> (r: Option<u64>)
    ensures
        r is Some <==> number(v, 0, u64::MAX as int) is Some,
        r is Some ==> number(v, 0, u64::MAX as int) == Some(r->0 as int),
{
    read_u64(v, 0, u64::MAX)
}

/// `RAV1E_DISPATCH_HI`: whether busy superblocks are routed in place of calm ones.
pub fn dispatch_hi(v: Option<&str>) -> (r: bool)
    ensures
        r == one(v, false),
{
    is_one(v, false)
}

/// `RAV1E_INTRA_TOPK`: the cap on full trials of intra modes.
pub fn intra_topk(v: Option<&str>) -> (r: Option<usize>)
    ensures
        r is Some <==> number(v, 0, usize::MAX as int) is Some,
        r is Some ==> number(v, 0, usize::MAX as int) == Some(r->0 as int),
{
    read_usize(v, 0)
}

/// `RAV1E_FASTRD`: whether the screen of inter modes counts motion vector bits. Unset, it follows the
/// tier from `Turbo` up.
pub fn fastrd(v: Option<&str>, tier: FastTier) -> (r: bool)
    ensures
        r == one_or_on(v, tier.rung() >= FastTier::Turbo.rung()),
{
    is_one_or_on(v, tier.turbo())
}

/// `RAV1E_CHROMA_PRESEL`: whether the chroma mode is chosen before the trials.
pub fn chroma_presel(v: Option<&str>) -> (r: bool)
    ensures
        r == one(v, false),
{
    is_one(v, false)
}

/// `RAV1E_PD0_CEIL`: whether the split screen records what it would decide.
pub fn pd0_ceil(v: Option<&str>) -> (r: bool)
    ensures
        r == one(v, false),
{
    is_one(v, false)
}

/// `RAV1E_SBSEG`: whether each superblock records its content class.
pub fn sbseg(v: Option<&str>) -> (r: bool)
    ensures
        r == one(v, false),
{
    is_one(v, false)
}

/// `RAV1E_DEEP`: whether every superblock is searched deeply.
pub fn deep_force(v: Option<&str>) -> (r: bool)
    ensures
        r == one(v, false),
{
    is_one(v, false)
}

/// `RAV1E_DEEP_LO`: whether calm superblocks are searched deeply in place of busy ones.
pub fn deep_lo(v: Option<&str>) -> (r: bool)
    ensures
        r == one(v, false),
{
    is_one(v, false)
}

/// `RAV1E_AFILTER`: whether each frame picks its interpolation filter. Unset, it follows the
/// tier from `Turbo` up.
pub fn afilter(v: Option<&str>, tier: FastTier) -> (r: bool)
    ensures
        r == one(v, tier.rung() >= FastTier::Turbo.rung()),
{
    is_one(v, tier.turbo())
}

/// `RAV1E_PBINTERP`: whether each block picks its interpolation filter.
pub fn pbinterp(v: Option<&str>) -> (r: bool)
    ensures
        r == one(v, false),
{
    is_one(v, false)
}

/// `RAV1E_OBMC`: whether overlapped motion compensation is on. Unset, it follows the
/// tier from `Fast` up.
pub fn obmc(v: Option<&str>, tier: FastTier) -> (r: bool)
    ensures
        r == one(v, tier.rung() >= FastTier::Fast.rung()),
{
    is_one(v, tier.fast())
}

/// `RAV1E_OBMC_FORCE`: whether every block that may overlap does.
pub fn obmc_force(v: Option<&str>) -> (r: bool)
    ensures
        r == one(v, false),
{
    is_one(v, false)
}

/// `RAV1E_OBMC_MGATE`: whether the motion of a clip decides on overlapping. Unset, it follows the
/// tier from `Fast` up.
pub fn obmc_mgate(v: Option<&str>, tier: FastTier) -> (r: bool)
    ensures
        r == one(v, tier.rung() >= FastTier::Fast.rung()),
{
    is_one(v, tier.fast())
}

/// `RAV1E_WARP`: whether local warped motion is on. Unset, it follows the
/// tier from `Fast` up.
pub fn warp(v: Option<&str>, tier: FastTier) -> (r: bool)
    ensures
        r == one(v, tier.rung() >= FastTier::Fast.rung()),
{
    is_one(v, tier.fast())
}

/// `RAV1E_WARP_FORCE`: whether every block that may warp does.
pub fn warp_force(v: Option<&str>) -> (r: bool)
    ensures
        r == one(v, false),
{
    is_one(v, false)
}

/// `RAV1E_WARP_GATE`: whether the first inter frame decides on warping.
pub fn warp_gate(v: Option<&str>) -> (r: bool)
    ensures
        r == one(v, false),
{
    is_one(v, false)
}

/// `RAV1E_WARP_SHEAR_T`: the shear above which the first inter frame allows warping.
pub fn warp_shear_t(v: Option<&str>) -> (r: u64)
    ensures
        r == number_or(number(v, 0, u64::MAX as int), 4200),
{
    match read_u64(v, 0, u64::MAX) {
        Some(n) => n,
        None => 4200,
    }
}

/// `RAV1E_WARP_PRE`: whether the lookahead decides on warping; `0` declines.
pub fn warp_prepass_on(v: Option<&str>) -> (r: bool)
    ensures
        r == not_zero(v),
{
    is_not_zero(v)
}

/// `RAV1E_WARP_PRE_T`: the shear above which the lookahead allows warping.
pub fn warp_pre_t(v: Option<&str>) -> (r: u64)
    ensures
        r == number_or(number(v, 0, u64::MAX as int), 1100),
{
    match read_u64(v, 0, u64::MAX) {
        Some(n) => n,
        None => 1100,
    }
}

/// `RAV1E_WARP_PRE_GAIN_T`: the gain above which the lookahead allows warping.
pub fn warp_pre_gain_t(v: Option<&str>) -> (r: u64)
    ensures
        r == number_or(number(v, 0, u64::MAX as int), 0),
{
    match read_u64(v, 0, u64::MAX) {
        Some(n) => n,
        None => 0,
    }
}

/// `RAV1E_AFILTER3`: whether the pick of a frame filter has three candidates; `0` declines.
pub fn afilter3(v: Option<&str>) -> (r: bool)
    ensures
        r == not_zero(v),
{
    is_not_zero(v)
}

/// `RAV1E_PBINTERP_RDO`: whether trials search the filter of a block too.
pub fn pbinterp_rdo(v: Option<&str>) -> (r: bool)
    ensures
        r == one(v, false),
{
    is_one(v, false)
}

/// `RAV1E_PRIMREF_LVL`: the highest pyramid level that inherits distributions.
pub fn primref_max_level(v: Option<&str>) -> (r: u64)
    ensures
        r == number_or(number(v, 0, u64::MAX as int), 4),
{
    match read_u64(v, 0, u64::MAX) {
        Some(n) => n,
        None => 4,
    }
}

/// `RAV1E_GM`: whether a global motion model is signalled.
pub fn global_motion(v: Option<&str>) -> (r: bool)
    ensures
        r == one(v, false),
{
    is_one(v, false)
}

/// `RAV1E_AQ`: whether the activity mask is used; `0` and `off` decline.
pub fn activity_mask(v: Option<&str>) -> (r: bool)
    ensures
        r == not_off(v),
{
    is_not_off(v)
}

/// `RAV1E_TPL`: whether temporal propagation is used; `0` and `off` decline.
pub fn tpl(v: Option<&str>) -> (r: bool)
    ensures
        r == not_off(v),
{
    is_not_off(v)
}

/// `RAV1E_TRELLIS_T`: the residual variance above which a superblock is worth the
/// rate-distortion pass over its levels.
pub fn trellis_t(v: Option<&str>) -> (r: i64)
    ensures
        r == number_or(signed_number(v), 20000),
{
    match read_i64(v) {
        Some(n) => n,
        None => 20000,
    }
}

/// `RAV1E_VARPART`: the variance above which a node splits without a search.
pub fn varpart(v: Option<&str>) -> (r: Option<i64>)
    ensures
        r is Some <==> signed_number(v) is Some,
        r is Some ==> signed_number(v) == Some(r->0 as int),
{
    read_i64(v)
}

/// `RAV1E_FILTER`: the interpolation filter forced on every frame: regular, smooth
/// or sharp.
pub fn filter_probe(v: Option<&str>) -> (r: Option<u8>)
    ensures
        r is Some <==> number(v, 0, 2) is Some,
        r is Some ==> number(v, 0, 2) == Some(r->0 as int),
{
    match read_u64(v, 0, 2) {
        Some(n) => Some(n as u8),
        None => None,
    }
}

/// `RAV1E_HARVEST`: whether observations are recorded, which they are where the
/// variable holds the path of a file.
pub fn enabled(path: Option<&str>) -> (r: bool)
    ensures
        r == (path is Some),
{
    path.is_some()
}

/// The text that one observation adds to the record: its line, if observations are
/// recorded.
pub fn emit(path: Option<&str>, line: &str) -> (r: Option<String>)
    ensures
        match r {
            Some(row) => path is Some && row@ == line@ + "\n"@,
            None => path is None,
        },
{
    if enabled(path) {
        let mut row = line.to_owned();
        row.append("\n");
        Some(row)
    } else {
        None
    }
}

/// A comma and a number.
pub open spec fn and_number(v: int) -> Seq<char> {
    ","@ + written_number(v)
}

fn push_field(out: &mut String, v: u64)
    ensures
        final(out)@ == old(out)@ + and_number(v as int),
{
    let ghost before = out@;
    out.append(",");
    push_number(out, v);
    assert(out@ =~= before + and_number(v as int));
}

/// The line that records the rate of a transform block: the quantizer index of its frame,
/// its size, the distortion of its coefficients and the rate in eighths of a bit.
pub fn rate_line(base_q_idx: u8, tx_size: TxSize, raw_tx_dist: u64, rate: u32) -> (r: String)
    ensures
        r@ == "RATE"@ + and_number(base_q_idx as int) + and_number(tx_size.idx()) + and_number(raw_tx_dist as int) + and_number(rate as int),
{
    let mut out: String = "RATE".to_owned();
    push_field(&mut out, base_q_idx as u64);
    push_field(&mut out, tx_size.index() as u64);
    push_field(&mut out, raw_tx_dist);
    push_field(&mut out, rate as u64);
    out
}

/// The line that records the content of a superblock: its frame, its variance and the
/// area in blocks of each width, from the widest down.
pub fn superblock_line(input_frameno: u64, variance: i64, area: [u32; 5]) -> (r: String)
    ensures
        r@ == "SBSEG"@ + and_number(input_frameno as int) + and_number(variance as int) + and_number(area@[0] as int) + and_number(
            area@[1] as int,
        ) + and_number(area@[2] as int) + and_number(area@[3] as int) + and_number(area@[4] as int),
{
    let mut out: String = "SBSEG".to_owned();
    push_field(&mut out, input_frameno);
    let ghost before = out@;
    out.append(",");
    push_signed(&mut out, variance);
    assert(out@ =~= before + and_number(variance as int));
    push_field(&mut out, area[0] as u64);
    push_field(&mut out, area[1] as u64);
    push_field(&mut out, area[2] as u64);
    push_field(&mut out, area[3] as u64);
    push_field(&mut out, area[4] as u64);
    out
}

/// `RAV1E_RATEHARVEST`: whether rates are recorded, which takes a record too.
pub fn rateharvest(v: Option<&str>, path: Option<&str>) -> (r: bool)
    ensures
        r == (one(v, false) && path is Some),
{
    is_one(v, false) && enabled(path)
}

/// `RAV1E_NO_EARLY_EXIT`: whether partition trials run to their end.
pub fn no_early_exit(v: Option<&str>) -> (r: bool)
    ensures
        r == one(v, false),
{
    is_one(v, false)
}

/// `RAV1E_SB_SKIP`: the threshold under which a superblock is skipped; `0` and
/// `off` decline. Unset, it is 8 from the tier `Turbo` up.
pub fn sb_skip(v: Option<&str>, tier: FastTier) -> (r: Option<u64>)
    ensures
        match v {
            Some(s) => {
                let off = trimmed(s@) == "0"@ || trimmed(s@) == "off"@;
                let k = number(v, 0, u64::MAX as int);
                &&& r is Some <==> !off && k is Some
                &&& r is Some ==> k == Some(r->0 as int)
            },
            None => r == (if tier.rung() >= FastTier::Turbo.rung() { Some(8u64) } else { None }),
        },
{
    match v {
        Some(s) => {
            let w = trim(s);
            if same_text(w, "0") || same_text(w, "off") {
                None
            } else {
                read_u64(v, 0, u64::MAX)
            }
        },
        None => if tier.turbo() { Some(8) } else { None },
    }
}

/// `RAV1E_PYRAMID`: whether the depth of the pyramid is probed from the source.
/// Unset, it follows the tier from `Fast` up.
pub fn pyramid_auto(v: Option<&str>, tier: FastTier) -> (r: bool)
    ensures
        r == (match v {
            Some(s) => same_word(trimmed(s@), "auto"@),
            None => tier.rung() >= FastTier::Fast.rung(),
        }),
{
    match v {
        Some(s) => eq_ignore_ascii_case(trim(s), "auto"),
        None => tier.fast(),
    }
}

/// A depth of the pyramid brought within what is supported.
pub open spec fn depth_within(d: int) -> int {
    if d < 1 { 1 } else if d > 4 { 4 } else { d }
}

fn clamp_depth(d: u64) -> (r: u64)
    ensures
        r == depth_within(d as int),
{
    if d < 1 { 1 } else if d > 4 { 4 } else { d }
}

/// The depth that was latched by a first call of [`set_pyramid_override`].
pub open spec fn override_after(latch: Option<u64>, d: u64) -> Option<u64> {
    if latch is Some { latch } else { Some(depth_within(d as int) as u64) }
}

/// Latches the depth of the pyramid that a probe of the source chose; a second
/// choice changes nothing.
pub fn set_pyramid_override(latch: &mut Option<u64>, d: u64)
    ensures
        *final(latch) == override_after(*old(latch), d),
{
    if latch.is_none() {
        *latch = Some(clamp_depth(d));
    }
}

/// The depth of the pyramid before it is latched: the probe's choice, else the
/// number that the variable writes, else 2.
pub open spec fn depth_of(chosen: Option<u64>, v: Option<&str>) -> int {
    match chosen {
        Some(d) => d as int,
        None => match number(v, 0, u64::MAX as int) {
            Some(d) => depth_within(d),
            None => 2,
        },
    }
}

/// `RAV1E_PYRAMID`: the depth of the reordering pyramid, latched by the first
/// read.
pub fn pyramid_depth(latch: &mut Option<u64>, chosen: Option<u64>, v: Option<&str>) -> (r: u64)
    ensures
        r == (match *old(latch) {
            Some(d) => d as int,
            None => depth_of(chosen, v),
        }),
        *final(latch) == Some(r),
{
    match *latch {
        Some(d) => d,
        None => {
            let d: u64 = match chosen {
                Some(d) => d,
                None => match read_u64(v, 0, u64::MAX) {
                    Some(d) => clamp_depth(d),
                    None => 2,
                },
            };
            *latch = Some(d);
            d
        },
    }
}


/// The cap of at least one that a field writes.
pub open spec fn cap(f: Seq<char>) -> Option<int> {
    within(unsigned_value(trimmed(f)), 1, usize::MAX as int)
}

/// The caps for blocks of 64, 32, 16 and at most 8 samples that a text writes: one
/// for all, or four with colons between them.
pub open spec fn caps(s: Seq<char>) -> Option<Seq<int>> {
    let f = fields(s);
    if says_off(s) {
        None
    } else if f.len() == 1 && cap(f[0]) is Some {
        let k = cap(f[0])->0;
        Some(seq![k, k, k, k])
    } else if f.len() == 4 && (forall|i: int| 0 <= i < 4 ==> cap(#[trigger] f[i]) is Some) {
        Some(Seq::new(4, |i: int| cap(f[i])->0))
    } else {
        None
    }
}

fn read_cap(s: &str) -> (r: Option<usize>)
    ensures
        r is Some <==> within(unsigned_value(s@), 1, usize::MAX as int) is Some,
        r is Some ==> unsigned_value(s@) == Some(r->0 as int),
{
    match parse_u64(s) {
        Some(k) => if 1 <= k && k <= usize::MAX as u64 { Some(k as usize) } else { None },
        None => None,
    }
}

/// Whether four caps are the given numbers.
pub open spec fn caps_are(a: [usize; 4], k: Seq<int>) -> bool {
    k.len() == 4 && forall|i: int| 0 <= i < 4 ==> (#[trigger] a[i]) == k[i]
}

/// The caps that a text without blanks at its ends writes.
fn read_caps(s: &str) -> (r: Option<[usize; 4]>)
    ensures
        r is Some <==> caps(s@) is Some,
        r is Some ==> caps_are(r->0, caps(s@)->0),
{
    if is_off(s) {
        return None;
    }
    let ghost f = fields(s@);
    let ghost t = f.map_values(|x: Seq<char>| trimmed(x));
    let parts = split_fields(s);
    proof {
        assert forall|i: int| 0 <= i < f.len() implies (#[trigger] parts@[i])@ == trimmed(f[i]) by {
            assert(parts@[i]@ == t[i]);
        }
    }
    if parts.len() == 1 {
        match read_cap(parts[0]) {
            Some(k) => Some([k, k, k, k]),
            None => None,
        }
    } else if parts.len() == 4 {
        match (read_cap(parts[0]), read_cap(parts[1]), read_cap(parts[2]), read_cap(parts[3])) {
            (Some(a), Some(b), Some(c), Some(d)) => {
                let r: [usize; 4] = [a, b, c, d];
                assert(cap(f[0]) == Some(a as int) && cap(f[1]) == Some(b as int));
                assert(cap(f[2]) == Some(c as int) && cap(f[3]) == Some(d as int));
                assert forall|i: int| 0 <= i < 4 implies cap(#[trigger] f[i]) is Some && cap(f[i])->0
                    == r[i] by {
                    if i == 0 {
                    } else if i == 1 {
                    } else if i == 2 {
                    } else {
                    }
                }
                Some(r)
            },
            _ => {
                proof {
                    if caps(s@) is Some {
                        assert(cap(f[0]) is Some);
                        assert(cap(f[1]) is Some);
                        assert(cap(f[2]) is Some);
                        assert(cap(f[3]) is Some);
                    }
                }
                None
            },
        }
    } else {
        None
    }
}

/// `RAV1E_MODE_TOPK`: the caps on full trials of inter modes for blocks of 64, 32,
/// 16 and at most 8 samples; empty, `0` and `off` decline. Unset, they are 6 from
/// the tier `Clean` up.
pub fn mode_topk(v: Option<&str>, tier: FastTier) -> (r: Option<[usize; 4]>)
    ensures
        match v {
            Some(s) => {
                &&& r is Some <==> caps(trimmed(s@)) is Some
                &&& r is Some ==> caps_are(r->0, caps(trimmed(s@))->0)
            },
            None => {
                &&& r is Some <==> tier != FastTier::Off
                &&& r is Some ==> caps_are(r->0, seq![6, 6, 6, 6])
            },
        },
{
    match v {
        Some(s) => read_caps(trim(s)),
        None => if tier != FastTier::Off { Some([6, 6, 6, 6]) } else { None },
    }
}

/// The cost in eighths of a bit that a field writes.
pub open spec fn cost(f: Seq<char>) -> Option<int> {
    within(signed_value(trimmed(f)), i32::MIN as int, i32::MAX as int)
}

/// The terms of the cost of a motion vector that a text writes: off, the fitted
/// ones, or the first three of its fields.
pub open spec fn mv_terms(s: Seq<char>) -> Option<(int, int, int)> {
    let f = fields(s);
    if says_off(s) {
        None
    } else if s == "1"@ || s == "on"@ {
        Some((46, -23, 16))
    } else if f.len() >= 3 && cost(f[0]) is Some && cost(f[1]) is Some && cost(f[2]) is Some {
        Some((cost(f[0])->0, cost(f[1])->0, cost(f[2])->0))
    } else {
        None
    }
}

fn read_cost(s: &str) -> (r: Option<i32>)
    ensures
        r is Some <==> within(signed_value(s@), i32::MIN as int, i32::MAX as int) is Some,
        r is Some ==> signed_value(s@) == Some(r->0 as int),
{
    match parse_i64(s) {
        Some(k) => if -0x8000_0000 <= k && k <= 0x7fff_ffff { Some(k as i32) } else { None },
        None => None,
    }
}

/// `RAV1E_MVCOST`: the floor, the cost of a moving axis and the cost of a bit of
/// magnitude that price a motion vector, in eighths of a bit.
pub fn mvcost(v: Option<&str>) -> (r: Option<(i32, i32, i32)>)
    ensures
        match v {
            Some(s) => match r {
                Some((floor, axis, bit)) => mv_terms(trimmed(s@)) == Some(
                    (floor as int, axis as int, bit as int),
                ),
                None => mv_terms(trimmed(s@)) is None,
            },
            None => r is None,
        },
{
    let s = match v {
        Some(s) => trim(s),
        None => {
            return None;
        },
    };
    if is_off(s) {
        return None;
    }
    if same_text(s, "1") || same_text(s, "on") {
        return Some((46, -23, 16));
    }
    let ghost f = fields(s@);
    let ghost t = f.map_values(|x: Seq<char>| trimmed(x));
    let parts = split_fields(s);
    if parts.len() < 3 {
        return None;
    }
    assert(parts@[0]@ == t[0] && parts@[1]@ == t[1] && parts@[2]@ == t[2]);
    match (read_cost(parts[0]), read_cost(parts[1]), read_cost(parts[2])) {
        (Some(a), Some(b), Some(c)) => Some((a, b, c)),
        _ => None,
    }
}

/// The fields of a setting whose numbers are read elsewhere.
pub enum GateText<'a> {
    /// Nothing is skipped.
    Off,
    /// The standard thresholds.
    Standard,
    /// Two thresholds.
    Two(&'a str, &'a str),
    /// Three thresholds.
    Three(&'a str, &'a str, &'a str),
}

/// Whether a setting holds the thresholds around the first colon of a text.
pub open spec fn two_of(r: GateText, s: Seq<char>) -> bool {
    match r {
        GateText::Two(a, b) => colon(s) < s.len() && a@ == trimmed(s.take(colon(s))) && b@
            == trimmed(s.skip(colon(s) + 1)),
        GateText::Off => colon(s) == s.len(),
        _ => false,
    }
}

/// Whether a setting holds the first three fields of a text.
pub open spec fn three_of(r: GateText, s: Seq<char>) -> bool {
    match r {
        GateText::Three(a, b, c) => fields(s).len() >= 3 && a@ == trimmed(fields(s)[0]) && b@
            == trimmed(fields(s)[1]) && c@ == trimmed(fields(s)[2]),
        GateText::Off => fields(s).len() < 3,
        _ => false,
    }
}

fn read_two<'a>(s: &'a str) -> (r: GateText<'a>)
    ensures
        two_of(r, s@),
{
    match split_once(s) {
        Some((a, b)) => GateText::Two(trim(a), trim(b)),
        None => GateText::Off,
    }
}

/// `RAV1E_PART_GATE`: the thresholds under which blocks of 64, 32 and 16 samples
/// do not try a split. Unset, they are standard from the tier `Turbo` up.
pub fn part_gate<'a>(v: Option<&'a str>, tier: FastTier) -> (r: GateText<'a>)
    ensures
        match v {
            Some(s) => if says_off(trimmed(s@)) {
                r is Off
            } else {
                three_of(r, trimmed(s@))
            },
            None => if tier.rung() >= FastTier::Turbo.rung() {
                r is Standard
            } else {
                r is Off
            },
        },
{
    let s = match v {
        Some(s) => trim(s),
        None => {
            return if tier.turbo() { GateText::Standard } else { GateText::Off };
        },
    };
    if is_off(s) {
        return GateText::Off;
    }
    let ghost t = fields(s@).map_values(|x: Seq<char>| trimmed(x));
    let parts = split_fields(s);
    if parts.len() < 3 {
        return GateText::Off;
    }
    assert(parts@[0]@ == t[0] && parts@[1]@ == t[1] && parts@[2]@ == t[2]);
    GateText::Three(parts[0], parts[1], parts[2])
}

/// `RAV1E_PD0_GATE`: the margins under which a block does not try a split and
/// above which it tries nothing else. Unset, they are standard from the tier
/// `Turbo` up.
pub fn pd0_gate<'a>(v: Option<&'a str>, tier: FastTier) -> (r: GateText<'a>)
    ensures
        match v {
            Some(s) => if says_off(trimmed(s@)) {
                r is Off
            } else {
                two_of(r, trimmed(s@))
            },
            None => if tier.rung() >= FastTier::Turbo.rung() {
                r is Standard
            } else {
                r is Off
            },
        },
{
    match v {
        Some(s) => {
            let w = trim(s);
            if is_off(w) { GateText::Off } else { read_two(w) }
        },
        None => if tier.turbo() { GateText::Standard } else { GateText::Off },
    }
}

/// `RAV1E_PD0_REAL`: the margins of the screen that costs a block truly.
pub fn pd0_real<'a>(v: Option<&'a str>) -> (r: GateText<'a>)
    ensures
        match v {
            Some(s) => if says_off(trimmed(s@)) {
                r is Off
            } else {
                two_of(r, trimmed(s@))
            },
            None => r is Off,
        },
{
    pd0_gate(v, FastTier::Off)
}

/// `RAV1E_LRF_GATE`: the thresholds for luma and chroma under which loop
/// restoration is not solved; `1` and `on` take the standard ones.
pub fn lrf_gate<'a>(v: Option<&'a str>) -> (r: GateText<'a>)
    ensures
        match v {
            Some(s) => if says_off(s@) {
                r is Off
            } else if s@ == "1"@ || s@ == "on"@ {
                r is Standard
            } else {
                two_of(r, s@)
            },
            None => r is Off,
        },
{
    match v {
        Some(s) => if is_off(s) {
            GateText::Off
        } else if same_text(s, "1") || same_text(s, "on") {
            GateText::Standard
        } else {
            read_two(s)
        },
        None => GateText::Off,
    }
}

/// The multipliers of the Lagrangian as they are written.
pub enum LambdaText<'a> {
    /// One for each pyramid level; exactly four that are numbers are wanted.
    Level(Vec<&'a str>),
    /// One for intra frames only.
    Intra(&'a str),
    /// One for inter frames only.
    Inter(&'a str),
    /// One for intra frames and one for inter frames.
    Pair(&'a str, &'a str),
    /// One for all frames.
    Both(&'a str),
}

/// Whether a text begins with a letter and a colon.
pub open spec fn marked(s: Seq<char>, mark: char) -> bool {
    s.len() >= 2 && s[0] == mark && s[1] == ':'
}

/// Whether the multipliers are those that a text writes.
pub open spec fn lambda_of(r: LambdaText, s: Seq<char>) -> bool {
    if marked(s, 'l') {
        r matches LambdaText::Level(f) && texts_are(
            f@,
            fields(s.skip(2)).map_values(|x: Seq<char>| trimmed(x)),
        )
    } else if marked(s, 'i') {
        r matches LambdaText::Intra(m) && m@ == s.skip(2)
    } else if marked(s, 'p') {
        r matches LambdaText::Inter(m) && m@ == s.skip(2)
    } else if colon(s) < s.len() {
        r matches LambdaText::Pair(a, b) && a@ == s.take(colon(s)) && b@ == s.skip(colon(s) + 1)
    } else {
        r matches LambdaText::Both(m) && m@ == s
    }
}

fn strip_mark<'a>(s: &'a str, mark: char) -> (r: Option<&'a str>)
    ensures
        match r {
            Some(rest) => marked(s@, mark) && rest@ == s@.skip(2),
            None => !marked(s@, mark),
        },
{
    let n: usize = s.unicode_len();
    if n >= 2 && s.get_char(0) == mark && s.get_char(1) == ':' {
        let rest = s.substring_char(2, n);
        assert(rest@ =~= s@.skip(2));
        Some(rest)
    } else {
        None
    }
}

/// `RAV1E_LAMBDA_MULT`: the multipliers of the Lagrangian; empty, `0` and `off`
/// decline.
pub fn lambda_mult<'a>(v: Option<&'a str>) -> (r: Option<LambdaText<'a>>)
    ensures
        match v {
            Some(s) => {
                &&& r is Some <==> !says_off(trimmed(s@))
                &&& r is Some ==> lambda_of(r->0, trimmed(s@))
            },
            None => r is None,
        },
{
    let s = match v {
        Some(s) => trim(s),
        None => {
            return None;
        },
    };
    if is_off(s) {
        return None;
    }
    if let Some(rest) = strip_mark(s, 'l') {
        return Some(LambdaText::Level(split_fields(rest)));
    }
    if let Some(m) = strip_mark(s, 'i') {
        return Some(LambdaText::Intra(m));
    }
    if let Some(m) = strip_mark(s, 'p') {
        return Some(LambdaText::Inter(m));
    }
    match split_once(s) {
        Some((a, b)) => Some(LambdaText::Pair(a, b)),
        None => Some(LambdaText::Both(s)),
    }
}

/// The least number whose square is at least `2^145`.
const ROOT_2_145: u128 = 6678434726570384492723;

proof fn lemma_root()
    ensures
        pow2(72) == 4722366482869645213696,
        pow2(143) * 2 == pow2(144),
        pow2(144) * 2 == pow2(145),
        pow2(145) * 2 == pow2(146),
        pow2(144) == pow2(72) * pow2(72),
        ROOT_2_145 * ROOT_2_145 >= pow2(145),
        (ROOT_2_145 - 1) * (ROOT_2_145 - 1) < pow2(145),
{
    lemma2_to64();
    lemma2_to64_rest();
    lemma_pow2_adds(64, 8);
    lemma_pow2_adds(72, 72);
    lemma_pow2_unfold(144);
    lemma_pow2_unfold(145);
    lemma_pow2_unfold(146);
    assert(pow2(72) == 4722366482869645213696);
    assert(4722366482869645213696 * 4722366482869645213696
        == 22300745198530623141535718272648361505980416) by (nonlinear_arith);
    assert(ROOT_2_145 * ROOT_2_145 >= 44601490397061246283071436545296723011960832)
        by (nonlinear_arith)
        requires ROOT_2_145 == 6678434726570384492723,
    ;
    assert((ROOT_2_145 - 1) * (ROOT_2_145 - 1) < 44601490397061246283071436545296723011960832)
        by (nonlinear_arith)
        requires ROOT_2_145 == 6678434726570384492723,
    ;
}

/// `-log2(w / 512)` in eighths of a bit, rounded to the nearest: the power of two
/// by which `w^16` is scaled to within half an eighth of `512^16`.
pub open spec fn eighths(w: int, r: int) -> bool {
    pow2(143) <= pow(w, 16) * pow2((2 * r) as nat) < pow2(145)
}

/// The cost in eighths of a bit of a symbol whose bracket is `w` 512ths wide: the
/// binary logarithm, rounded, with 13 bits for a width that vanishes.
pub fn sym_cost_frac(w: usize) -> (r: u32)
    requires
        w <= 512,
    ensures
        w == 0 ==> r == 104,
        w >= 1 ==> r <= 72 && eighths(w as int, r as int),
{
    if w == 0 {
        return 104;
    }
    let a: u128 = w as u128;
    assert(1 <= a * a <= 512 * 512) by (nonlinear_arith)
        requires 1 <= a <= 512,
    ;
    let b: u128 = a * a;
    assert(1 <= b * b <= 262144 * 262144) by (nonlinear_arith)
        requires 1 <= b <= 262144,
    ;
    let c: u128 = b * b;
    assert(1 <= c * c <= 68719476736 * 68719476736) by (nonlinear_arith)
        requires 1 <= c <= 68719476736,
    ;
    let x: u128 = c * c;
    proof {
        lemma_root();
        lemma_pow_adds(w as int, 1, 1);
        lemma_pow1(w as int);
        lemma_pow_adds(w as int, 2, 2);
        lemma_pow_adds(w as int, 4, 4);
        lemma_pow_adds(w as int, 8, 8);
        assert(68719476736 * 68719476736 == 4722366482869645213696int) by (nonlinear_arith);
        lemma2_to64();
        assert(x * pow2(0) == x);
    }
    let mut y: u128 = x;
    let mut n: u32 = 0;
    while y < 4722366482869645213696
        invariant
            1 <= x <= 4722366482869645213696,
            pow2(72) == 4722366482869645213696,
            n <= 72,
            y == x * pow2(n as nat),
            y < 9444732965739290427392,
            n == 0 ==> y == x,
        decreases 9444732965739290427392 - y,
    {
        proof {
            lemma_pow2_unfold((n + 1) as nat);
            assert(x * pow2((n + 1) as nat) == 2 * y) by (nonlinear_arith)
                requires pow2((n + 1) as nat) == 2 * pow2(n as nat), y == x * pow2(n as nat),
            ;
            if n == 72 {
                assert(x * pow2(72) >= pow2(72)) by (nonlinear_arith)
                    requires x >= 1,
                ;
            }
            lemma_pow2_pos(n as nat);
            assert(y >= 1) by (nonlinear_arith)
                requires y == x * pow2(n as nat), x >= 1, pow2(n as nat) >= 1,
            ;
        }
        y = y * 2;
        n = n + 1;
    }
    let ghost q = pow2(n as nat) as int;
    let ghost s = pow(w as int, 16);
    proof {
        lemma_pow2_adds(n as nat, n as nat);
        assert(s == x * x);
        assert(s * (q * q) == y * y) by (nonlinear_arith)
            requires s == x * x, y == x * q,
        ;
        assert(y * y >= pow2(144)) by (nonlinear_arith)
            requires y >= pow2(72), pow2(144) == pow2(72) * pow2(72),
        ;
        assert(y * y < 4 * pow2(144)) by (nonlinear_arith)
            requires 0 <= y < 2 * pow2(72), pow2(144) == pow2(72) * pow2(72),
        ;
    }
    if y >= ROOT_2_145 {
        proof {
            assert(y * y >= pow2(145)) by (nonlinear_arith)
                requires y >= ROOT_2_145, ROOT_2_145 * ROOT_2_145 >= pow2(145),
            ;
            lemma_pow2_unfold((2 * n) as nat);
            lemma_pow2_unfold((2 * n - 1) as nat);
            let t = pow2((2 * n - 2) as nat) as int;
            assert(s * t * 4 == s * (q * q)) by (nonlinear_arith)
                requires q * q == 4 * t,
            ;
        }
        n - 1
    } else {
        proof {
            assert(y * y < pow2(145)) by (nonlinear_arith)
                requires 0 <= y <= ROOT_2_145 - 1, (ROOT_2_145 - 1) * (ROOT_2_145 - 1) < pow2(145),
            ;
        }
        n
    }
}

/// A wider bracket never costs more, and each width has one cost.
pub proof fn law_wider_symbols_cost_no_more(narrow: int, wide: int, cost_narrow: int, cost_wide: int)
    requires
        1 <= narrow <= wide,
        0 <= cost_narrow,
        0 <= cost_wide,
        eighths(narrow, cost_narrow),
        eighths(wide, cost_wide),
    ensures
        cost_wide <= cost_narrow,
{
    if cost_wide > cost_narrow {
        let d = (2 * (cost_wide - cost_narrow)) as nat;
        let p = pow2((2 * cost_narrow) as nat) as int;
        let q = pow2((2 * cost_wide) as nat) as int;
        let a = pow(narrow, 16);
        let b = pow(wide, 16);
        lemma_pow2_adds((2 * cost_narrow) as nat, d);
        lemma_pow2_adds((d - 2) as nat, 2);
        lemma_pow2_pos((d - 2) as nat);
        lemma_pow2_pos((2 * cost_narrow) as nat);
        lemma2_to64();
        lemma_pow_grows(narrow, wide, 16);
        assert(q >= 4 * p) by (nonlinear_arith)
            requires
                q == p * pow2(d),
                pow2(d) == pow2((d - 2) as nat) * 4,
                pow2((d - 2) as nat) >= 1,
                p >= 1,
        ;
        lemma_pow_positive(narrow, 16);
        assert(b * q >= 4 * (a * p)) by (nonlinear_arith)
            requires b >= a, a >= 0, q >= 4 * p, p >= 1,
        ;
        lemma_root();
    }
}

/// A power grows with its base.
proof fn lemma_pow_grows(a: int, b: int, n: nat)
    requires
        1 <= a <= b,
    ensures
        0 <= pow(a, n) <= pow(b, n),
    decreases n,
{
    reveal(pow);
    if n > 0 {
        let m = (n - 1) as nat;
        lemma_pow_grows(a, b, m);
        assert(0 <= a * pow(a, m) <= b * pow(b, m)) by (nonlinear_arith)
            requires 1 <= a <= b, 0 <= pow(a, m) <= pow(b, m),
        ;
    }
}

/// A value that is set decides a switch whatever the tier is.
pub proof fn law_a_set_value_overrides_the_tier(s: &str, low: bool, high: bool)
    ensures
        one(Some(s), low) == one(Some(s), high),
        one_or_on(Some(s), low) == one_or_on(Some(s), high),
{
}

/// What a tier switches on where nothing is set, each higher tier switches on too.
pub proof fn law_tiers_nest(low: FastTier, high: FastTier, from: FastTier)
    requires
        low.rung() <= high.rung(),
    ensures
        one(None, low.rung() >= from.rung()) ==> one(None, high.rung() >= from.rung()),
        one_or_on(None, low.rung() >= from.rung()) ==> one_or_on(None, high.rung() >= from.rung()),
{
}

/// The first depth that a probe chooses stands, and the pyramid takes it over what
/// the variable says.
pub proof fn law_first_probed_depth_stands(first: u64, second: u64, v: Option<&str>)
    ensures
        override_after(override_after(None, first), second) == override_after(None, first),
        depth_of(override_after(None, first), v) == depth_within(first as int),
{
}

/// The depth of the pyramid is within what is supported.
pub proof fn law_depth_is_supported(probed: Option<u64>, v: Option<&str>)
    requires
        probed is Some ==> probed == override_after(None, probed->0),
    ensures
        1 <= depth_of(probed, v) <= 4,
{
}

/// With nothing set and no tier, no switch is on that follows a tier or waits for a
/// value, and none is off that only a value turns off.
pub proof fn law_nothing_set_changes_nothing(from: FastTier)
    requires
        from != FastTier::Off,
    ensures
        !one(None, false),
        !one(None, FastTier::Off.rung() >= from.rung()),
        !one_or_on(None, FastTier::Off.rung() >= from.rung()),
        not_zero(None),
        not_off(None),
        number(None, 0, u64::MAX as int) is None,
        signed_number(None) is None,
{
}

/// The tiers stand on the ladder in the order of their effort, and each word names its own,
/// in any case and with blanks around it; any other text names none.
pub proof fn law_words_name_their_tiers(s: Seq<char>, t: FastTier)
    ensures
        FastTier::Off.rung() < FastTier::Clean.rung() < FastTier::Turbo.rung() < FastTier::Fast.rung() < FastTier::Quality.rung(),
        tier_named(s) == FastTier::Clean <==> same_word(trimmed(s), seq!['c', 'l', 'e', 'a', 'n']),
        tier_named(s) == FastTier::Turbo <==> same_word(trimmed(s), seq!['t', 'u', 'r', 'b', 'o']),
        tier_named(s) == FastTier::Fast <==> same_word(trimmed(s), seq!['1']) || same_word(trimmed(s), seq!['o', 'n']) || same_word(
            trimmed(s),
            seq!['f', 'a', 's', 't'],
        ),
        tier_named(s) == FastTier::Quality <==> same_word(trimmed(s), seq!['q', 'u', 'a', 'l', 'i', 't', 'y']) || same_word(trimmed(s), seq!['q']),
{
    reveal_strlit("clean");
    reveal_strlit("turbo");
    reveal_strlit("1");
    reveal_strlit("on");
    reveal_strlit("fast");
    reveal_strlit("quality");
    reveal_strlit("q");
    assert("clean"@ =~= seq!['c', 'l', 'e', 'a', 'n']);
    assert("turbo"@ =~= seq!['t', 'u', 'r', 'b', 'o']);
    assert("1"@ =~= seq!['1']);
    assert("on"@ =~= seq!['o', 'n']);
    assert("fast"@ =~= seq!['f', 'a', 's', 't']);
    assert("quality"@ =~= seq!['q', 'u', 'a', 'l', 'i', 't', 'y']);
    assert("q"@ =~= seq!['q']);
    let w = trimmed(s);
    if same_word(w, "clean"@) {
        assert(lower(w[0]) == lower('c'));
    }
    if same_word(w, "turbo"@) {
        assert(lower(w[0]) == lower('t'));
    }
    if same_word(w, "1"@) {
        assert(lower(w[0]) == lower('1'));
    }
    if same_word(w, "q"@) {
        assert(lower(w[0]) == lower('q'));
    }
}

/// What switches read: a one, a zero and the words for on and off, with blanks around them;
/// the words in any case. Nothing set leaves a switch as it is.
pub proof fn law_switches_read_their_words(s: &str, unset: bool)
    ensures
        ({
            let w = trimmed(s@);
            &&& one(Some(s), unset) <==> w == seq!['1']
            &&& one_or_on(Some(s), unset) <==> w == seq!['1'] || same_word(w, seq!['o', 'n'])
            &&& not_zero(Some(s)) <==> w != seq!['0']
            &&& not_off(Some(s)) <==> w != seq!['0'] && !same_word(w, seq!['o', 'f', 'f'])
            &&& says_off(w) <==> w.len() == 0 || w == seq!['0'] || w == seq!['o', 'f', 'f']
            &&& one(None, unset) == unset
            &&& one_or_on(None, unset) == unset
            &&& not_zero(None) && not_off(None)
        }),
{
    reveal_strlit("1");
    reveal_strlit("0");
    reveal_strlit("on");
    reveal_strlit("off");
    reveal_strlit("");
    assert("1"@ =~= seq!['1']);
    assert("0"@ =~= seq!['0']);
    assert("on"@ =~= seq!['o', 'n']);
    assert("off"@ =~= seq!['o', 'f', 'f']);
    assert(""@ =~= Seq::<char>::empty());
    assert(trimmed(s@).len() == 0 ==> trimmed(s@) =~= Seq::<char>::empty());
}

/// A number counts if the text writes one in its range, with blanks around it at most: a
/// number that is written out is read as itself.
pub proof fn law_numbers_are_read_in_their_range(v: Option<&str>, n: int, lo: int, hi: int)
    requires
        v is Some,
        trimmed(v->0@) == written_number(n),
    ensures
        0 <= n && lo <= n <= hi ==> number(v, lo, hi) == Some(n),
        number(v, lo, hi) is Some ==> lo <= number(v, lo, hi)->0 <= hi,
        i64::MIN <= n <= i64::MAX ==> signed_number(v) == Some(n),
        lo <= n <= hi && 0 <= n ==> number_or(number(v, lo, hi), lo) == n,
        number_or(number(None, lo, hi), n) == n,
{
    crate::text::law_written_numbers_read_back(n);
}

/// The pyramid has one to four levels: a depth in between stands, and any other gives the
/// nearest. Without a choice or a number it has two.
pub proof fn law_depths_are_brought_in_range(d: u64)
    ensures
        1 <= d <= 4 ==> depth_within(d as int) == d,
        d == 0 ==> depth_within(d as int) == 1,
        d > 4 ==> depth_within(d as int) == 4,
        depth_of(None, None) == 2,
        depth_of(Some(d), None) == d,
        override_after(None, d) == Some(depth_within(d as int) as u64),
        override_after(Some(d), 0) == Some(d),
{
}

/// Caps are written one for all sizes, or one for each of four in their order.
pub proof fn law_caps_are_read_in_their_order(s: Seq<char>, i: int)
    requires
        caps(s) is Some,
        0 <= i < 4,
    ensures
        caps(s)->0.len() == 4,
        caps(s)->0[i] >= 1,
        fields(s).len() == 1 || fields(s).len() == 4,
        fields(s).len() == 1 ==> unsigned_value(trimmed(fields(s)[0])) == Some(caps(s)->0[i]),
        fields(s).len() == 4 ==> unsigned_value(trimmed(fields(s)[i])) == Some(caps(s)->0[i]),
{
    let f = fields(s);
    if f.len() == 4 {
        assert(cap(f[i]) is Some);
    }
}

/// The terms of a vector's cost are the first three fields, in their order.
pub proof fn law_terms_are_read_in_their_order(s: Seq<char>)
    requires
        mv_terms(s) is Some,
        fields(s).len() >= 2,
    ensures
        ({
            let (a, b, c) = mv_terms(s)->0;
            &&& fields(s).len() >= 3
            &&& signed_value(trimmed(fields(s)[0])) == Some(a)
            &&& signed_value(trimmed(fields(s)[1])) == Some(b)
            &&& signed_value(trimmed(fields(s)[2])) == Some(c)
        }),
{
    crate::text::law_fields_are_parted_by_colons(s);
    reveal_strlit("1");
    reveal_strlit("on");
    crate::text::lemma_colon(s);
}

/// A bracket half as wide costs one bit more, and the whole costs nothing. The cost of a
/// bracket is off by half an eighth at most, and no other cost is.
pub proof fn law_costs_count_halvings(w: int, r: int, q: int)
    requires
        1 <= w,
        0 <= r,
        0 <= q,
    ensures
        eighths(2 * w, r) ==> eighths(w, r + 8),
        eighths(512, r) <==> r == 0,
        eighths(w, r) ==> pow2(144) <= 2 * (pow(w, 16) * pow2((2 * r) as nat)) && pow(w, 16) * pow2((2 * r) as nat) < 2 * pow2(144),
        eighths(w, r) && eighths(w, q) ==> r == q,
{
    let x = pow(w, 16);
    lemma_pow_positive(w, 16);
    lemma_pow2_unfold(145);
    lemma_pow2_unfold(144);
    // Twice as wide.
    lemma_pow_distributes(2, w, 16);
    vstd::arithmetic::power2::lemma_pow2(16);
    lemma_pow2_adds(16, (2 * r) as nat);
    assert(pow(2 * w, 16) * pow2((2 * r) as nat) == x * pow2((2 * (r + 8)) as nat)) by (nonlinear_arith)
        requires
            pow(2 * w, 16) == pow(2, 16) * x,
            pow(2, 16) == pow2(16),
            pow2(16) * pow2((2 * r) as nat) == pow2((2 * (r + 8)) as nat),
    ;
    // The whole.
    lemma2_to64();
    vstd::arithmetic::power2::lemma_pow2(9);
    vstd::arithmetic::power2::lemma_pow2(144);
    lemma_pow_multiplies(2, 9, 16);
    assert(pow(512, 16) == pow2(144));
    lemma_pow2_pos(143);
    assert(pow2(144) * pow2(0) == pow2(144));
    if r > 0 {
        lemma_step(pow2(144) as int, 0, r);
        assert(!eighths(512, r));
    } else {
        assert(eighths(512, r));
    }
    // Costs apart are apart by an eighth or more.
    if r < q {
        lemma_step(x, r, q);
    } else if q < r {
        lemma_step(x, q, r);
    }
}

/// Two costs apart scale a width to values of which the second is four times the first or
/// more.
proof fn lemma_step(x: int, r: int, q: int)
    requires
        x > 0,
        0 <= r < q,
    ensures
        x * pow2((2 * q) as nat) >= 4 * (x * pow2((2 * r) as nat)),
        4 * pow2(143) == pow2(145),
{
    let a = pow2((2 * r) as nat) as int;
    lemma_pow2_adds((2 * r) as nat, 2);
    lemma2_to64();
    lemma_pow2_unfold(145);
    lemma_pow2_unfold(144);
    let b = pow2((2 * q) as nat) as int;
    assert(b >= 4 * a) by {
        if q > r + 1 {
            lemma_pow2_strictly_increases((2 * r + 2) as nat, (2 * q) as nat);
        }
    }
    assert(x * b >= 4 * (x * a)) by (nonlinear_arith)
        requires b >= 4 * a, x > 0;
}

} // verus!
