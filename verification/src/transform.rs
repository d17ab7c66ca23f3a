//! Transform block sizes, types and type sets.

use vstd::prelude::*;

use crate::partition::BlockSize;
use crate::util::{imax, imin};

verus! {

/// The size of a transform block, width by height.
#[allow(non_camel_case_types)]
#[derive(Clone, Copy, Debug, PartialEq, Eq, Structural)]
pub enum TxSize {
    TX_4X4,
    TX_8X8,
    TX_16X16,
    TX_32X32,
    TX_64X64,
    TX_4X8,
    TX_8X4,
    TX_8X16,
    TX_16X8,
    TX_16X32,
    TX_32X16,
    TX_32X64,
    TX_64X32,
    TX_4X16,
    TX_16X4,
    TX_8X32,
    TX_32X8,
    TX_16X64,
    TX_64X16,
}

impl TxSize {
    /// The base two logarithm of the width.
    pub open spec fn wl(self) -> int {
        match self {
            TxSize::TX_4X4
            | TxSize::TX_4X8
            | TxSize::TX_4X16 => 2,
            TxSize::TX_8X8
            | TxSize::TX_8X4
            | TxSize::TX_8X16
            | TxSize::TX_8X32 => 3,
            TxSize::TX_16X16
            | TxSize::TX_16X8
            | TxSize::TX_16X32
            | TxSize::TX_16X4
            | TxSize::TX_16X64 => 4,
            TxSize::TX_32X32
            | TxSize::TX_32X16
            | TxSize::TX_32X64
            | TxSize::TX_32X8 => 5,
            TxSize::TX_64X64
            | TxSize::TX_64X32
            | TxSize::TX_64X16 => 6,
        }
    }

    /// The base two logarithm of the height.
    pub open spec fn hl(self) -> int {
        match self {
            TxSize::TX_4X4
            | TxSize::TX_8X4
            | TxSize::TX_16X4 => 2,
            TxSize::TX_8X8
            | TxSize::TX_4X8
            | TxSize::TX_16X8
            | TxSize::TX_32X8 => 3,
            TxSize::TX_16X16
            | TxSize::TX_8X16
            | TxSize::TX_32X16
            | TxSize::TX_4X16
            | TxSize::TX_64X16 => 4,
            TxSize::TX_32X32
            | TxSize::TX_16X32
            | TxSize::TX_64X32
            | TxSize::TX_8X32 => 5,
            TxSize::TX_64X64
            | TxSize::TX_32X64
            | TxSize::TX_16X64 => 6,
        }
    }

    /// The position of the size in the order of the enumeration.
    pub open spec fn idx(self) -> int {
        match self {
            TxSize::TX_4X4 => 0,
            TxSize::TX_8X8 => 1,
            TxSize::TX_16X16 => 2,
            TxSize::TX_32X32 => 3,
            TxSize::TX_64X64 => 4,
            TxSize::TX_4X8 => 5,
            TxSize::TX_8X4 => 6,
            TxSize::TX_8X16 => 7,
            TxSize::TX_16X8 => 8,
            TxSize::TX_16X32 => 9,
            TxSize::TX_32X16 => 10,
            TxSize::TX_32X64 => 11,
            TxSize::TX_64X32 => 12,
            TxSize::TX_4X16 => 13,
            TxSize::TX_16X4 => 14,
            TxSize::TX_8X32 => 15,
            TxSize::TX_32X8 => 16,
            TxSize::TX_16X64 => 17,
            TxSize::TX_64X16 => 18,
        }
    }

    /// The width in samples.
    pub open spec fn w(self) -> int {
        side_of(self.wl())
    }

    /// The height in samples.
    pub open spec fn h(self) -> int {
        side_of(self.hl())
    }

    /// The base two logarithm of the width.
    pub fn width_log2(self) -> (r: usize)
        ensures
            r == self.wl(),
            2 <= r <= 6,
    {
        match self {
            TxSize::TX_4X4
            | TxSize::TX_4X8
            | TxSize::TX_4X16 => 2,
            TxSize::TX_8X8
            | TxSize::TX_8X4
            | TxSize::TX_8X16
            | TxSize::TX_8X32 => 3,
            TxSize::TX_16X16
            | TxSize::TX_16X8
            | TxSize::TX_16X32
            | TxSize::TX_16X4
            | TxSize::TX_16X64 => 4,
            TxSize::TX_32X32
            | TxSize::TX_32X16
            | TxSize::TX_32X64
            | TxSize::TX_32X8 => 5,
            TxSize::TX_64X64
            | TxSize::TX_64X32
            | TxSize::TX_64X16 => 6,
        }
    }

    /// The base two logarithm of the height.
    pub fn height_log2(self) -> (r: usize)
        ensures
            r == self.hl(),
            2 <= r <= 6,
    {
        match self {
            TxSize::TX_4X4
            | TxSize::TX_8X4
            | TxSize::TX_16X4 => 2,
            TxSize::TX_8X8
            | TxSize::TX_4X8
            | TxSize::TX_16X8
            | TxSize::TX_32X8 => 3,
            TxSize::TX_16X16
            | TxSize::TX_8X16
            | TxSize::TX_32X16
            | TxSize::TX_4X16
            | TxSize::TX_64X16 => 4,
            TxSize::TX_32X32
            | TxSize::TX_16X32
            | TxSize::TX_64X32
            | TxSize::TX_8X32 => 5,
            TxSize::TX_64X64
            | TxSize::TX_32X64
            | TxSize::TX_16X64 => 6,
        }
    }

    /// The position of the size in the order of the enumeration.
    pub fn index(self) -> (r: usize)
        ensures
            r == self.idx(),
            r < 19,
    {
        match self {
            TxSize::TX_4X4 => 0,
            TxSize::TX_8X8 => 1,
            TxSize::TX_16X16 => 2,
            TxSize::TX_32X32 => 3,
            TxSize::TX_64X64 => 4,
            TxSize::TX_4X8 => 5,
            TxSize::TX_8X4 => 6,
            TxSize::TX_8X16 => 7,
            TxSize::TX_16X8 => 8,
            TxSize::TX_16X32 => 9,
            TxSize::TX_32X16 => 10,
            TxSize::TX_32X64 => 11,
            TxSize::TX_64X32 => 12,
            TxSize::TX_4X16 => 13,
            TxSize::TX_16X4 => 14,
            TxSize::TX_8X32 => 15,
            TxSize::TX_32X8 => 16,
            TxSize::TX_16X64 => 17,
            TxSize::TX_64X16 => 18,
        }
    }

    /// The width in samples.
    pub fn width(self) -> (r: usize)
        ensures
            r == self.w(),
            4 <= r <= 64,
    {
        side(self.width_log2())
    }

    /// The height in samples.
    pub fn height(self) -> (r: usize)
        ensures
            r == self.h(),
            4 <= r <= 64,
    {
        side(self.height_log2())
    }

    /// The width in units of four samples.
    pub fn width_mi(self) -> (r: usize)
        ensures
            r == self.w() / 4,
            1 <= r <= 16,
    {
        self.width() / 4
    }

    /// The height in units of four samples.
    pub fn height_mi(self) -> (r: usize)
        ensures
            r == self.h() / 4,
            1 <= r <= 16,
    {
        self.height() / 4
    }

    /// The number of samples.
    pub fn area(self) -> (r: usize)
        ensures
            r == self.w() * self.h(),
            16 <= r <= 4096,
    {
        assert(16 <= self.w() * self.h() <= 4096) by (nonlinear_arith)
            requires 4 <= self.w() <= 64, 4 <= self.h() <= 64;
        self.width() * self.height()
    }

    /// The size with the given logarithms of width and height.
    pub open spec fn of_log2(wl: int, hl: int) -> TxSize {
        if wl == 2 {
            if hl == 2 {
                TxSize::TX_4X4
            } else if hl == 3 {
                TxSize::TX_4X8
            } else {
                TxSize::TX_4X16
            }
        } else if wl == 3 {
            if hl == 2 {
                TxSize::TX_8X4
            } else if hl == 3 {
                TxSize::TX_8X8
            } else if hl == 4 {
                TxSize::TX_8X16
            } else {
                TxSize::TX_8X32
            }
        } else if wl == 4 {
            if hl == 2 {
                TxSize::TX_16X4
            } else if hl == 3 {
                TxSize::TX_16X8
            } else if hl == 4 {
                TxSize::TX_16X16
            } else if hl == 5 {
                TxSize::TX_16X32
            } else {
                TxSize::TX_16X64
            }
        } else if wl == 5 {
            if hl == 3 {
                TxSize::TX_32X8
            } else if hl == 4 {
                TxSize::TX_32X16
            } else if hl == 5 {
                TxSize::TX_32X32
            } else {
                TxSize::TX_32X64
            }
        } else {
            if hl == 4 {
                TxSize::TX_64X16
            } else if hl == 5 {
                TxSize::TX_64X32
            } else {
                TxSize::TX_64X64
            }
        }
    }

    /// The size with the given logarithms of width and height.
    pub fn from_log2(wl: usize, hl: usize) -> (r: TxSize)
        requires
            2 <= wl <= 6,
            2 <= hl <= 6,
            wl <= hl + 2,
            hl <= wl + 2,
        ensures
            r == TxSize::of_log2(wl as int, hl as int),
            r.wl() == wl,
            r.hl() == hl,
    {
        if wl == 2 {
            if hl == 2 {
                TxSize::TX_4X4
            } else if hl == 3 {
                TxSize::TX_4X8
            } else {
                TxSize::TX_4X16
            }
        } else if wl == 3 {
            if hl == 2 {
                TxSize::TX_8X4
            } else if hl == 3 {
                TxSize::TX_8X8
            } else if hl == 4 {
                TxSize::TX_8X16
            } else {
                TxSize::TX_8X32
            }
        } else if wl == 4 {
            if hl == 2 {
                TxSize::TX_16X4
            } else if hl == 3 {
                TxSize::TX_16X8
            } else if hl == 4 {
                TxSize::TX_16X16
            } else if hl == 5 {
                TxSize::TX_16X32
            } else {
                TxSize::TX_16X64
            }
        } else if wl == 5 {
            if hl == 3 {
                TxSize::TX_32X8
            } else if hl == 4 {
                TxSize::TX_32X16
            } else if hl == 5 {
                TxSize::TX_32X32
            } else {
                TxSize::TX_32X64
            }
        } else {
            if hl == 4 {
                TxSize::TX_64X16
            } else if hl == 5 {
                TxSize::TX_64X32
            } else {
                TxSize::TX_64X64
            }
        }
    }

    /// The largest square that fits.
    pub fn sqr(self) -> (r: TxSize)
        ensures
            r.wl() == imin(self.wl(), self.hl()),
            r.hl() == r.wl(),
            r.idx() == r.wl() - 2,
    {
        let l: usize = if self.width_log2() <= self.height_log2() { self.width_log2() } else { self.height_log2() };
        Self::from_log2(l, l)
    }

    /// The smallest square that covers the size.
    pub fn sqr_up(self) -> (r: TxSize)
        ensures
            r.wl() == imax(self.wl(), self.hl()),
            r.hl() == r.wl(),
            r.idx() == r.wl() - 2,
    {
        let l: usize = if self.width_log2() >= self.height_log2() { self.width_log2() } else { self.height_log2() };
        Self::from_log2(l, l)
    }

    /// The size of the next level of a split.
    pub open spec fn sub(self) -> TxSize {
        match self {
            TxSize::TX_4X4 | TxSize::TX_8X8 | TxSize::TX_4X8 | TxSize::TX_8X4 => TxSize::TX_4X4,
            TxSize::TX_16X16 | TxSize::TX_8X16 | TxSize::TX_16X8 => TxSize::TX_8X8,
            TxSize::TX_32X32 | TxSize::TX_16X32 | TxSize::TX_32X16 => TxSize::TX_16X16,
            TxSize::TX_64X64 | TxSize::TX_32X64 | TxSize::TX_64X32 => TxSize::TX_32X32,
            TxSize::TX_4X16 => TxSize::TX_4X8,
            TxSize::TX_16X4 => TxSize::TX_8X4,
            TxSize::TX_8X32 => TxSize::TX_8X16,
            TxSize::TX_32X8 => TxSize::TX_16X8,
            TxSize::TX_16X64 => TxSize::TX_16X32,
            TxSize::TX_64X16 => TxSize::TX_32X16,
        }
    }

    /// The size of the next level of a split: a square is halved in both
    /// directions, any other size in the longer one; 4x4 stays.
    pub fn sub_size(self) -> (r: TxSize)
        ensures
            r == self.sub(),
            (r.wl(), r.hl()) == split_log2(self.wl(), self.hl()),
    {
        let wl: usize = self.width_log2();
        let hl: usize = self.height_log2();
        if wl > hl {
            Self::from_log2(wl - 1, hl)
        } else if hl > wl {
            Self::from_log2(wl, hl - 1)
        } else if wl > 2 {
            Self::from_log2(wl - 1, hl - 1)
        } else {
            self
        }
    }

    /// The part of the block whose coefficients are coded: at most 32 in either
    /// direction.
    pub fn coded(self) -> (r: TxSize)
        ensures
            r.wl() == imin(self.wl(), 5),
            r.hl() == imin(self.hl(), 5),
    {
        let wl: usize = if self.width_log2() < 5 { self.width_log2() } else { 5 };
        let hl: usize = if self.height_log2() < 5 { self.height_log2() } else { 5 };
        Self::from_log2(wl, hl)
    }

    /// The block of the same size.
    pub fn block_size(self) -> (r: BlockSize)
        ensures
            r.wl() == self.wl(),
            r.hl() == self.hl(),
    {
        BlockSize::from_log2(self.width_log2(), self.height_log2())
    }
}

/// The side of a block from its logarithm.
pub open spec fn side_of(l: int) -> int {
    if l == 2 {
        4
    } else if l == 3 {
        8
    } else if l == 4 {
        16
    } else if l == 5 {
        32
    } else if l == 6 {
        64
    } else {
        128
    }
}

/// The side of a block from its logarithm.
pub fn side(l: usize) -> (r: usize)
    ensures
        r == side_of(l as int),
{
    if l == 2 {
        4
    } else if l == 3 {
        8
    } else if l == 4 {
        16
    } else if l == 5 {
        32
    } else if l == 6 {
        64
    } else {
        128
    }
}

/// The logarithms of the next level of a split.
pub open spec fn split_log2(wl: int, hl: int) -> (int, int) {
    if wl > hl {
        (wl - 1, hl)
    } else if hl > wl {
        (wl, hl - 1)
    } else if wl > 2 {
        (wl - 1, hl - 1)
    } else {
        (wl, hl)
    }
}

/// No two sizes share both logarithms.
pub proof fn lemma_tx_size_by_log2(a: TxSize, b: TxSize)
    requires
        a.wl() == b.wl(),
        a.hl() == b.hl(),
    ensures
        a == b,
{
}

/// The kind of a transform, vertical then horizontal.
#[allow(non_camel_case_types)]
#[derive(Clone, Copy, Debug, PartialEq, Eq, Structural)]
pub enum TxType {
    DCT_DCT,
    ADST_DCT,
    DCT_ADST,
    ADST_ADST,
    FLIPADST_DCT,
    DCT_FLIPADST,
    FLIPADST_FLIPADST,
    ADST_FLIPADST,
    FLIPADST_ADST,
    IDTX,
    V_DCT,
    H_DCT,
    V_ADST,
    H_ADST,
    V_FLIPADST,
    H_FLIPADST,
}

impl TxType {
    /// The position of the type in the order of the enumeration.
    pub open spec fn idx(self) -> int {
        match self {
            TxType::DCT_DCT => 0,
            TxType::ADST_DCT => 1,
            TxType::DCT_ADST => 2,
            TxType::ADST_ADST => 3,
            TxType::FLIPADST_DCT => 4,
            TxType::DCT_FLIPADST => 5,
            TxType::FLIPADST_FLIPADST => 6,
            TxType::ADST_FLIPADST => 7,
            TxType::FLIPADST_ADST => 8,
            TxType::IDTX => 9,
            TxType::V_DCT => 10,
            TxType::H_DCT => 11,
            TxType::V_ADST => 12,
            TxType::H_ADST => 13,
            TxType::V_FLIPADST => 14,
            TxType::H_FLIPADST => 15,
        }
    }

    /// The position of the type in the order of the enumeration.
    pub fn index(self) -> (r: usize)
        ensures
            r == self.idx(),
            r < 16,
    {
        match self {
            TxType::DCT_DCT => 0,
            TxType::ADST_DCT => 1,
            TxType::DCT_ADST => 2,
            TxType::ADST_ADST => 3,
            TxType::FLIPADST_DCT => 4,
            TxType::DCT_FLIPADST => 5,
            TxType::FLIPADST_FLIPADST => 6,
            TxType::ADST_FLIPADST => 7,
            TxType::FLIPADST_ADST => 8,
            TxType::IDTX => 9,
            TxType::V_DCT => 10,
            TxType::H_DCT => 11,
            TxType::V_ADST => 12,
            TxType::H_ADST => 13,
            TxType::V_FLIPADST => 14,
            TxType::H_FLIPADST => 15,
        }
    }
}

/// The transform types that a block may choose from, from fewest to most.
#[allow(non_camel_case_types)]
#[derive(Clone, Copy, Debug, PartialEq, Eq, Structural)]
pub enum TxSet {
    TX_SET_DCTONLY,
    TX_SET_INTER_3,
    TX_SET_INTRA_2,
    TX_SET_INTRA_1,
    TX_SET_INTER_2,
    TX_SET_INTER_1,
}

/// Sizes are what they are called: width by height, both powers of two.
pub proof fn law_transforms_have_their_names(t: TxSize)
    ensures
        (t.w(), t.h()) == match t {
            TxSize::TX_4X4 => (4int, 4int),
            TxSize::TX_8X8 => (8, 8),
            TxSize::TX_16X16 => (16, 16),
            TxSize::TX_32X32 => (32, 32),
            TxSize::TX_64X64 => (64, 64),
            TxSize::TX_4X8 => (4, 8),
            TxSize::TX_8X4 => (8, 4),
            TxSize::TX_8X16 => (8, 16),
            TxSize::TX_16X8 => (16, 8),
            TxSize::TX_16X32 => (16, 32),
            TxSize::TX_32X16 => (32, 16),
            TxSize::TX_32X64 => (32, 64),
            TxSize::TX_64X32 => (64, 32),
            TxSize::TX_4X16 => (4, 16),
            TxSize::TX_16X4 => (16, 4),
            TxSize::TX_8X32 => (8, 32),
            TxSize::TX_32X8 => (32, 8),
            TxSize::TX_16X64 => (16, 64),
            TxSize::TX_64X16 => (64, 16),
        },
        t.w() == vstd::arithmetic::power2::pow2(t.wl() as nat),
        t.h() == vstd::arithmetic::power2::pow2(t.hl() as nat),
        TxSize::of_log2(t.wl(), t.hl()) == t,
{
    vstd::arithmetic::power2::lemma2_to64();
}

/// The sizes stand in the order in which the format numbers them: the squares first,
/// then two to one, then four to one, each upright before flat.
pub proof fn law_transforms_are_numbered(t: TxSize)
    ensures
        seq![
            TxSize::TX_4X4,
            TxSize::TX_8X8,
            TxSize::TX_16X16,
            TxSize::TX_32X32,
            TxSize::TX_64X64,
            TxSize::TX_4X8,
            TxSize::TX_8X4,
            TxSize::TX_8X16,
            TxSize::TX_16X8,
            TxSize::TX_16X32,
            TxSize::TX_32X16,
            TxSize::TX_32X64,
            TxSize::TX_64X32,
            TxSize::TX_4X16,
            TxSize::TX_16X4,
            TxSize::TX_8X32,
            TxSize::TX_32X8,
            TxSize::TX_16X64,
            TxSize::TX_64X16,
        ][t.idx()] == t,
        0 <= t.idx() < 19,
        t.w() == t.h() <==> t.idx() < 5,
        t.w() == 2 * t.h() || t.h() == 2 * t.w() <==> 5 <= t.idx() < 13,
{
}

/// A split halves the longer side, or both sides of a square; the smallest transform
/// stays as it is.
pub proof fn law_split_halves_the_longer_side(t: TxSize)
    ensures
        t.w() > t.h() ==> 2 * t.sub().w() == t.w() && t.sub().h() == t.h(),
        t.w() < t.h() ==> t.sub().w() == t.w() && 2 * t.sub().h() == t.h(),
        t.w() == t.h() && t != TxSize::TX_4X4 ==> 2 * t.sub().w() == t.w() && 2 * t.sub().h() == t.h(),
        t == TxSize::TX_4X4 ==> t.sub() == t,
        (t.sub().wl(), t.sub().hl()) == split_log2(t.wl(), t.hl()),
{
}

/// The types stand in the order in which the format numbers them.
pub proof fn law_types_are_numbered(t: TxType)
    ensures
        seq![
            TxType::DCT_DCT,
            TxType::ADST_DCT,
            TxType::DCT_ADST,
            TxType::ADST_ADST,
            TxType::FLIPADST_DCT,
            TxType::DCT_FLIPADST,
            TxType::FLIPADST_FLIPADST,
            TxType::ADST_FLIPADST,
            TxType::FLIPADST_ADST,
            TxType::IDTX,
            TxType::V_DCT,
            TxType::H_DCT,
            TxType::V_ADST,
            TxType::H_ADST,
            TxType::V_FLIPADST,
            TxType::H_FLIPADST,
        ][t.idx()] == t,
        0 <= t.idx() < 16,
{
}

} // verus!
