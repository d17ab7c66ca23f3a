//! Prediction modes.

use vstd::prelude::*;

verus! {

/// How far the angles of a block's directional modes are moved, for luma and chroma.
#[derive(Clone, Copy, Debug, PartialEq, Eq, Structural)]
pub struct AngleDelta {
    pub y: i8,
    pub uv: i8,
}

/// What a prediction within the frame needs besides its mode.
#[derive(Clone, Copy, Debug, PartialEq, Eq, Structural)]
pub enum IntraParam {
    /// How far the mode's angle is moved.
    AngleDelta(i8),
    /// The factor of the luma detail that chroma is predicted from.
    Alpha(i16),
}

/// The parameter of a transform block of a plane: chroma that is predicted from luma
/// takes the factor of its plane, other chroma the angle of chroma, and luma and
/// blocks of inter modes the angle of luma.
pub open spec fn param_of(plane: int, mode: PredictionMode, angle: AngleDelta, alpha: Seq<i16>) -> IntraParam {
    if plane == 0 || mode.inter() {
        IntraParam::AngleDelta(angle.y)
    } else if mode == PredictionMode::UV_CFL_PRED {
        IntraParam::Alpha(alpha[plane - 1])
    } else {
        IntraParam::AngleDelta(angle.uv)
    }
}

/// How a block is predicted: within the frame, or from one or two references.
#[allow(non_camel_case_types)]
#[derive(Clone, Copy, Debug, PartialEq, Eq, Structural)]
pub enum PredictionMode {
    DC_PRED,
    V_PRED,
    H_PRED,
    D45_PRED,
    D135_PRED,
    D113_PRED,
    D157_PRED,
    D203_PRED,
    D67_PRED,
    SMOOTH_PRED,
    SMOOTH_V_PRED,
    SMOOTH_H_PRED,
    PAETH_PRED,
    UV_CFL_PRED,
    NEARESTMV,
    NEAR0MV,
    NEAR1MV,
    NEAR2MV,
    GLOBALMV,
    NEWMV,
    NEAREST_NEARESTMV,
    NEAR_NEAR0MV,
    NEAR_NEAR1MV,
    NEAR_NEAR2MV,
    NEAREST_NEWMV,
    NEW_NEARESTMV,
    NEAR_NEW0MV,
    NEAR_NEW1MV,
    NEAR_NEW2MV,
    NEW_NEAR0MV,
    NEW_NEAR1MV,
    NEW_NEAR2MV,
    GLOBAL_GLOBALMV,
    NEW_NEWMV,
}

impl PredictionMode {
    /// The position of the mode in the order of the enumeration.
    pub open spec fn idx(self) -> int {
        match self {
            PredictionMode::DC_PRED => 0,
            PredictionMode::V_PRED => 1,
            PredictionMode::H_PRED => 2,
            PredictionMode::D45_PRED => 3,
            PredictionMode::D135_PRED => 4,
            PredictionMode::D113_PRED => 5,
            PredictionMode::D157_PRED => 6,
            PredictionMode::D203_PRED => 7,
            PredictionMode::D67_PRED => 8,
            PredictionMode::SMOOTH_PRED => 9,
            PredictionMode::SMOOTH_V_PRED => 10,
            PredictionMode::SMOOTH_H_PRED => 11,
            PredictionMode::PAETH_PRED => 12,
            PredictionMode::UV_CFL_PRED => 13,
            PredictionMode::NEARESTMV => 14,
            PredictionMode::NEAR0MV => 15,
            PredictionMode::NEAR1MV => 16,
            PredictionMode::NEAR2MV => 17,
            PredictionMode::GLOBALMV => 18,
            PredictionMode::NEWMV => 19,
            PredictionMode::NEAREST_NEARESTMV => 20,
            PredictionMode::NEAR_NEAR0MV => 21,
            PredictionMode::NEAR_NEAR1MV => 22,
            PredictionMode::NEAR_NEAR2MV => 23,
            PredictionMode::NEAREST_NEWMV => 24,
            PredictionMode::NEW_NEARESTMV => 25,
            PredictionMode::NEAR_NEW0MV => 26,
            PredictionMode::NEAR_NEW1MV => 27,
            PredictionMode::NEAR_NEW2MV => 28,
            PredictionMode::NEW_NEAR0MV => 29,
            PredictionMode::NEW_NEAR1MV => 30,
            PredictionMode::NEW_NEAR2MV => 31,
            PredictionMode::GLOBAL_GLOBALMV => 32,
            PredictionMode::NEW_NEWMV => 33,
        }
    }

    /// The position of the mode in the order of the enumeration.
    pub fn index(self) -> (r: usize)
        ensures
            r == self.idx(),
            r < 34,
    {
        match self {
            PredictionMode::DC_PRED => 0,
            PredictionMode::V_PRED => 1,
            PredictionMode::H_PRED => 2,
            PredictionMode::D45_PRED => 3,
            PredictionMode::D135_PRED => 4,
            PredictionMode::D113_PRED => 5,
            PredictionMode::D157_PRED => 6,
            PredictionMode::D203_PRED => 7,
            PredictionMode::D67_PRED => 8,
            PredictionMode::SMOOTH_PRED => 9,
            PredictionMode::SMOOTH_V_PRED => 10,
            PredictionMode::SMOOTH_H_PRED => 11,
            PredictionMode::PAETH_PRED => 12,
            PredictionMode::UV_CFL_PRED => 13,
            PredictionMode::NEARESTMV => 14,
            PredictionMode::NEAR0MV => 15,
            PredictionMode::NEAR1MV => 16,
            PredictionMode::NEAR2MV => 17,
            PredictionMode::GLOBALMV => 18,
            PredictionMode::NEWMV => 19,
            PredictionMode::NEAREST_NEARESTMV => 20,
            PredictionMode::NEAR_NEAR0MV => 21,
            PredictionMode::NEAR_NEAR1MV => 22,
            PredictionMode::NEAR_NEAR2MV => 23,
            PredictionMode::NEAREST_NEWMV => 24,
            PredictionMode::NEW_NEARESTMV => 25,
            PredictionMode::NEAR_NEW0MV => 26,
            PredictionMode::NEAR_NEW1MV => 27,
            PredictionMode::NEAR_NEW2MV => 28,
            PredictionMode::NEW_NEAR0MV => 29,
            PredictionMode::NEW_NEAR1MV => 30,
            PredictionMode::NEW_NEAR2MV => 31,
            PredictionMode::GLOBAL_GLOBALMV => 32,
            PredictionMode::NEW_NEWMV => 33,
        }
    }

    /// The block is predicted from other frames.
    pub open spec fn inter(self) -> bool {
        self.idx() >= 14
    }

    /// The block is predicted from two other frames.
    pub open spec fn compound(self) -> bool {
        self.idx() >= 20
    }

    /// The block is predicted from other frames.
    pub fn is_inter(self) -> (r: bool)
        ensures
            r == self.inter(),
    {
        self.index() >= 14
    }

    /// The block is predicted from two other frames.
    pub fn is_compound(self) -> (r: bool)
        ensures
            r == self.compound(),
    {
        self.index() >= 20
    }

    /// One of the motion vectors is that of a candidate after the first.
    pub open spec fn nearmv(self) -> bool {
        15 <= self.idx() <= 17 || 21 <= self.idx() <= 23 || 26 <= self.idx() <= 31
    }

    /// One of the motion vectors is that of a candidate after the first.
    pub fn has_nearmv(self) -> (r: bool)
        ensures
            r == self.nearmv(),
    {
        let i: usize = self.index();
        (15 <= i && i <= 17) || (21 <= i && i <= 23) || (26 <= i && i <= 31)
    }

    /// The candidate that the mode names.
    pub open spec fn candidate(self) -> int {
        if 15 <= self.idx() <= 17 {
            self.idx() - 14
        } else if 21 <= self.idx() <= 23 {
            self.idx() - 20
        } else {
            1
        }
    }

    /// The candidate that the mode names.
    pub fn ref_mv_idx(self) -> (r: usize)
        ensures
            r == self.candidate(),
            1 <= r <= 3,
    {
        let i: usize = self.index();
        if 15 <= i && i <= 17 {
            i - 14
        } else if 21 <= i && i <= 23 {
            i - 20
        } else {
            1
        }
    }

    /// The prediction follows a direction: vertical, horizontal or between.
    pub open spec fn directional(self) -> bool {
        1 <= self.idx() <= 8
    }

    /// The prediction follows a direction.
    pub fn is_directional(self) -> (r: bool)
        ensures
            r == self.directional(),
    {
        self.index() >= 1 && self.index() <= 8
    }
}

/// The modes stand in the order in which the format numbers them.
pub proof fn law_modes_are_numbered(m: PredictionMode)
    ensures
        seq![
            PredictionMode::DC_PRED,
            PredictionMode::V_PRED,
            PredictionMode::H_PRED,
            PredictionMode::D45_PRED,
            PredictionMode::D135_PRED,
            PredictionMode::D113_PRED,
            PredictionMode::D157_PRED,
            PredictionMode::D203_PRED,
            PredictionMode::D67_PRED,
            PredictionMode::SMOOTH_PRED,
            PredictionMode::SMOOTH_V_PRED,
            PredictionMode::SMOOTH_H_PRED,
            PredictionMode::PAETH_PRED,
            PredictionMode::UV_CFL_PRED,
            PredictionMode::NEARESTMV,
            PredictionMode::NEAR0MV,
            PredictionMode::NEAR1MV,
            PredictionMode::NEAR2MV,
            PredictionMode::GLOBALMV,
            PredictionMode::NEWMV,
            PredictionMode::NEAREST_NEARESTMV,
            PredictionMode::NEAR_NEAR0MV,
            PredictionMode::NEAR_NEAR1MV,
            PredictionMode::NEAR_NEAR2MV,
            PredictionMode::NEAREST_NEWMV,
            PredictionMode::NEW_NEARESTMV,
            PredictionMode::NEAR_NEW0MV,
            PredictionMode::NEAR_NEW1MV,
            PredictionMode::NEAR_NEW2MV,
            PredictionMode::NEW_NEAR0MV,
            PredictionMode::NEW_NEAR1MV,
            PredictionMode::NEW_NEAR2MV,
            PredictionMode::GLOBAL_GLOBALMV,
            PredictionMode::NEW_NEWMV,
        ][m.idx()] == m,
        0 <= m.idx() < 34,
{
}

/// A mode is inter if it names a motion vector, compound if it names two, near if one of
/// them is a candidate after the first, and directional if it has an angle; a near mode
/// of one vector, or of two near ones, names its candidate.
pub proof fn law_modes_are_what_they_name(m: PredictionMode)
    ensures
        m.inter() <==> !(match m {
            PredictionMode::DC_PRED | PredictionMode::SMOOTH_PRED | PredictionMode::SMOOTH_V_PRED | PredictionMode::SMOOTH_H_PRED => true,
            PredictionMode::PAETH_PRED | PredictionMode::UV_CFL_PRED => true,
            _ => m.directional(),
        }),
        m.directional() <==> match m {
            PredictionMode::V_PRED | PredictionMode::H_PRED | PredictionMode::D45_PRED | PredictionMode::D135_PRED => true,
            PredictionMode::D113_PRED | PredictionMode::D157_PRED | PredictionMode::D203_PRED | PredictionMode::D67_PRED => true,
            _ => false,
        },
        m.compound() <==> match m {
            PredictionMode::NEAREST_NEARESTMV | PredictionMode::NEAREST_NEWMV | PredictionMode::NEW_NEARESTMV => true,
            PredictionMode::GLOBAL_GLOBALMV | PredictionMode::NEW_NEWMV => true,
            PredictionMode::NEAR0MV | PredictionMode::NEAR1MV | PredictionMode::NEAR2MV => false,
            _ => m.nearmv(),
        },
        m.nearmv() <==> match m {
            PredictionMode::NEAR0MV | PredictionMode::NEAR1MV | PredictionMode::NEAR2MV => true,
            PredictionMode::NEAR_NEAR0MV | PredictionMode::NEAR_NEAR1MV | PredictionMode::NEAR_NEAR2MV => true,
            PredictionMode::NEAR_NEW0MV | PredictionMode::NEAR_NEW1MV | PredictionMode::NEAR_NEW2MV => true,
            PredictionMode::NEW_NEAR0MV | PredictionMode::NEW_NEAR1MV | PredictionMode::NEW_NEAR2MV => true,
            _ => false,
        },
        m.candidate() == match m {
            PredictionMode::NEAR1MV | PredictionMode::NEAR_NEAR1MV => 2int,
            PredictionMode::NEAR2MV | PredictionMode::NEAR_NEAR2MV => 3,
            _ => 1,
        },
{
}

/// Luma and inter blocks are predicted with the angle of luma; chroma with its own angle,
/// or, where it is predicted from luma, with the factor of its plane.
pub proof fn law_planes_have_their_own_parameters(mode: PredictionMode, angle: AngleDelta, u: i16, v: i16)
    ensures
        param_of(0, mode, angle, seq![u, v]) == IntraParam::AngleDelta(angle.y),
        mode.inter() ==> param_of(1, mode, angle, seq![u, v]) == IntraParam::AngleDelta(angle.y)
            && param_of(2, mode, angle, seq![u, v]) == IntraParam::AngleDelta(angle.y),
        mode == PredictionMode::UV_CFL_PRED ==> param_of(1, mode, angle, seq![u, v]) == IntraParam::Alpha(u)
            && param_of(2, mode, angle, seq![u, v]) == IntraParam::Alpha(v),
        !mode.inter() && mode != PredictionMode::UV_CFL_PRED ==> param_of(1, mode, angle, seq![u, v]) == IntraParam::AngleDelta(angle.uv)
            && param_of(2, mode, angle, seq![u, v]) == IntraParam::AngleDelta(angle.uv),
{
}

} // verus!
