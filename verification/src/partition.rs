//! Block sizes, partition types, reference frames and block offsets.

use vstd::prelude::*;

use crate::outside::{listed_offsets, new_offsets, push_offset, OffsetList};
use crate::transform::{side, side_of, TxSize};
use crate::util::imin;

verus! {

/// The size of a prediction block, width by height.
#[allow(non_camel_case_types)]
#[derive(Clone, Copy, Debug, PartialEq, Eq, Structural)]
pub enum BlockSize {
    BLOCK_4X4,
    BLOCK_4X8,
    BLOCK_8X4,
    BLOCK_8X8,
    BLOCK_8X16,
    BLOCK_16X8,
    BLOCK_16X16,
    BLOCK_16X32,
    BLOCK_32X16,
    BLOCK_32X32,
    BLOCK_32X64,
    BLOCK_64X32,
    BLOCK_64X64,
    BLOCK_64X128,
    BLOCK_128X64,
    BLOCK_128X128,
    BLOCK_4X16,
    BLOCK_16X4,
    BLOCK_8X32,
    BLOCK_32X8,
    BLOCK_16X64,
    BLOCK_64X16,
}

impl BlockSize {
    /// The base two logarithm of the width.
    pub open spec fn wl(self) -> int {
        match self {
            BlockSize::BLOCK_4X4
            | BlockSize::BLOCK_4X8
            | BlockSize::BLOCK_4X16 => 2,
            BlockSize::BLOCK_8X4
            | BlockSize::BLOCK_8X8
            | BlockSize::BLOCK_8X16
            | BlockSize::BLOCK_8X32 => 3,
            BlockSize::BLOCK_16X8
            | BlockSize::BLOCK_16X16
            | BlockSize::BLOCK_16X32
            | BlockSize::BLOCK_16X4
            | BlockSize::BLOCK_16X64 => 4,
            BlockSize::BLOCK_32X16
            | BlockSize::BLOCK_32X32
            | BlockSize::BLOCK_32X64
            | BlockSize::BLOCK_32X8 => 5,
            BlockSize::BLOCK_64X32
            | BlockSize::BLOCK_64X64
            | BlockSize::BLOCK_64X128
            | BlockSize::BLOCK_64X16 => 6,
            BlockSize::BLOCK_128X64
            | BlockSize::BLOCK_128X128 => 7,
        }
    }

    /// The base two logarithm of the height.
    pub open spec fn hl(self) -> int {
        match self {
            BlockSize::BLOCK_4X4
            | BlockSize::BLOCK_8X4
            | BlockSize::BLOCK_16X4 => 2,
            BlockSize::BLOCK_4X8
            | BlockSize::BLOCK_8X8
            | BlockSize::BLOCK_16X8
            | BlockSize::BLOCK_32X8 => 3,
            BlockSize::BLOCK_8X16
            | BlockSize::BLOCK_16X16
            | BlockSize::BLOCK_32X16
            | BlockSize::BLOCK_4X16
            | BlockSize::BLOCK_64X16 => 4,
            BlockSize::BLOCK_16X32
            | BlockSize::BLOCK_32X32
            | BlockSize::BLOCK_64X32
            | BlockSize::BLOCK_8X32 => 5,
            BlockSize::BLOCK_32X64
            | BlockSize::BLOCK_64X64
            | BlockSize::BLOCK_128X64
            | BlockSize::BLOCK_16X64 => 6,
            BlockSize::BLOCK_64X128
            | BlockSize::BLOCK_128X128 => 7,
        }
    }

    /// The width in samples.
    pub open spec fn w(self) -> int {
        side_of(self.wl())
    }

    /// The height in samples.
    pub open spec fn h(self) -> int {
        side_of(self.hl())
    }

    /// The size covers `other` and is not the same.
    pub open spec fn exceeds(self, other: BlockSize) -> bool {
        &&& self.wl() >= other.wl()
        &&& self.hl() >= other.hl()
        &&& self.wl() > other.wl() || self.hl() > other.hl()
    }

    /// The size is covered by `other`, or is the same.
    pub open spec fn within(self, other: BlockSize) -> bool {
        self.wl() <= other.wl() && self.hl() <= other.hl()
    }

    /// The base two logarithm of the width.
    pub fn width_log2(self) -> (r: usize)
        ensures
            r == self.wl(),
            2 <= r <= 7,
    {
        match self {
            BlockSize::BLOCK_4X4
            | BlockSize::BLOCK_4X8
            | BlockSize::BLOCK_4X16 => 2,
            BlockSize::BLOCK_8X4
            | BlockSize::BLOCK_8X8
            | BlockSize::BLOCK_8X16
            | BlockSize::BLOCK_8X32 => 3,
            BlockSize::BLOCK_16X8
            | BlockSize::BLOCK_16X16
            | BlockSize::BLOCK_16X32
            | BlockSize::BLOCK_16X4
            | BlockSize::BLOCK_16X64 => 4,
            BlockSize::BLOCK_32X16
            | BlockSize::BLOCK_32X32
            | BlockSize::BLOCK_32X64
            | BlockSize::BLOCK_32X8 => 5,
            BlockSize::BLOCK_64X32
            | BlockSize::BLOCK_64X64
            | BlockSize::BLOCK_64X128
            | BlockSize::BLOCK_64X16 => 6,
            BlockSize::BLOCK_128X64
            | BlockSize::BLOCK_128X128 => 7,
        }
    }

    /// The base two logarithm of the height.
    pub fn height_log2(self) -> (r: usize)
        ensures
            r == self.hl(),
            2 <= r <= 7,
    {
        match self {
            BlockSize::BLOCK_4X4
            | BlockSize::BLOCK_8X4
            | BlockSize::BLOCK_16X4 => 2,
            BlockSize::BLOCK_4X8
            | BlockSize::BLOCK_8X8
            | BlockSize::BLOCK_16X8
            | BlockSize::BLOCK_32X8 => 3,
            BlockSize::BLOCK_8X16
            | BlockSize::BLOCK_16X16
            | BlockSize::BLOCK_32X16
            | BlockSize::BLOCK_4X16
            | BlockSize::BLOCK_64X16 => 4,
            BlockSize::BLOCK_16X32
            | BlockSize::BLOCK_32X32
            | BlockSize::BLOCK_64X32
            | BlockSize::BLOCK_8X32 => 5,
            BlockSize::BLOCK_32X64
            | BlockSize::BLOCK_64X64
            | BlockSize::BLOCK_128X64
            | BlockSize::BLOCK_16X64 => 6,
            BlockSize::BLOCK_64X128
            | BlockSize::BLOCK_128X128 => 7,
        }
    }

    /// The width in samples.
    pub fn width(self) -> (r: usize)
        ensures
            r == self.w(),
            4 <= r <= 128,
    {
        side(self.width_log2())
    }

    /// The height in samples.
    pub fn height(self) -> (r: usize)
        ensures
            r == self.h(),
            4 <= r <= 128,
    {
        side(self.height_log2())
    }

    /// The width in units of four samples.
    pub fn width_mi(self) -> (r: usize)
        ensures
            r == self.w() / 4,
            1 <= r <= 32,
    {
        self.width() / 4
    }

    /// The height in units of four samples.
    pub fn height_mi(self) -> (r: usize)
        ensures
            r == self.h() / 4,
            1 <= r <= 32,
    {
        self.height() / 4
    }

    /// The size is square.
    pub fn is_sqr(self) -> (r: bool)
        ensures
            r == (self.wl() == self.hl()),
    {
        self.width_log2() == self.height_log2()
    }

    /// The size covers `other` and is not the same.
    pub fn gt(self, other: BlockSize) -> (r: bool)
        ensures
            r == self.exceeds(other),
    {
        self.width_log2() >= other.width_log2() && self.height_log2() >= other.height_log2()
            && (self.width_log2() > other.width_log2() || self.height_log2() > other.height_log2())
    }

    /// The size is covered by `other`, or is the same.
    pub fn le(self, other: BlockSize) -> (r: bool)
        ensures
            r == self.within(other),
    {
        self.width_log2() <= other.width_log2() && self.height_log2() <= other.height_log2()
    }

    /// The size with the given logarithms of width and height.
    pub fn from_log2(wl: usize, hl: usize) -> (r: BlockSize)
        requires
            2 <= wl <= 7,
            2 <= hl <= 7,
            wl <= hl + 2,
            hl <= wl + 2,
            wl == 7 ==> hl >= 6,
            hl == 7 ==> wl >= 6,
        ensures
            r.wl() == wl,
            r.hl() == hl,
    {
        if wl == 2 {
            if hl == 2 {
                BlockSize::BLOCK_4X4
            } else if hl == 3 {
                BlockSize::BLOCK_4X8
            } else {
                BlockSize::BLOCK_4X16
            }
        } else if wl == 3 {
            if hl == 2 {
                BlockSize::BLOCK_8X4
            } else if hl == 3 {
                BlockSize::BLOCK_8X8
            } else if hl == 4 {
                BlockSize::BLOCK_8X16
            } else {
                BlockSize::BLOCK_8X32
            }
        } else if wl == 4 {
            if hl == 2 {
                BlockSize::BLOCK_16X4
            } else if hl == 3 {
                BlockSize::BLOCK_16X8
            } else if hl == 4 {
                BlockSize::BLOCK_16X16
            } else if hl == 5 {
                BlockSize::BLOCK_16X32
            } else {
                BlockSize::BLOCK_16X64
            }
        } else if wl == 5 {
            if hl == 3 {
                BlockSize::BLOCK_32X8
            } else if hl == 4 {
                BlockSize::BLOCK_32X16
            } else if hl == 5 {
                BlockSize::BLOCK_32X32
            } else {
                BlockSize::BLOCK_32X64
            }
        } else if wl == 6 {
            if hl == 4 {
                BlockSize::BLOCK_64X16
            } else if hl == 5 {
                BlockSize::BLOCK_64X32
            } else if hl == 6 {
                BlockSize::BLOCK_64X64
            } else {
                BlockSize::BLOCK_64X128
            }
        } else {
            if hl == 6 {
                BlockSize::BLOCK_128X64
            } else {
                BlockSize::BLOCK_128X128
            }
        }
    }

    /// The largest transform block of the same shape, at most 64 in either
    /// direction.
    pub fn tx_size(self) -> (r: TxSize)
        ensures
            r.wl() == imin(self.wl(), 6),
            r.hl() == imin(self.hl(), 6),
    {
        let wl: usize = if self.width_log2() < 6 { self.width_log2() } else { 6 };
        let hl: usize = if self.height_log2() < 6 { self.height_log2() } else { 6 };
        TxSize::from_log2(wl, hl)
    }

    /// The size has a counterpart on planes of the given subsampling: always at full
    /// resolution and at half resolution in both directions; at half resolution across
    /// unless it is higher than wide.
    pub open spec fn subsamples(self, xdec: int, ydec: int) -> bool {
        xdec == 0 && ydec == 0 || xdec == 1 && ydec == 1 || xdec == 1 && ydec == 0 && self.wl() >= self.hl()
    }

    /// The logarithm of a side on a plane, of at least four samples.
    pub open spec fn sub_log2(l: int, dec: int) -> int {
        if l - dec < 2 { 2 } else { l - dec }
    }

    /// The size on planes of the given subsampling, where there is one.
    pub fn subsampled_size(self, xdec: usize, ydec: usize) -> (r: Option<BlockSize>)
        ensures
            r is Some <==> self.subsamples(xdec as int, ydec as int),
            r matches Some(s) ==> s.wl() == Self::sub_log2(self.wl(), xdec as int) && s.hl() == Self::sub_log2(self.hl(), ydec as int),
    {
        let wl: usize = self.width_log2();
        let hl: usize = self.height_log2();
        if !((xdec == 0 && ydec == 0) || (xdec == 1 && ydec == 1) || (xdec == 1 && ydec == 0 && wl >= hl)) {
            return None;
        }
        let w: usize = if wl - xdec < 2 { 2 } else { wl - xdec };
        let h: usize = if hl - ydec < 2 { 2 } else { hl - ydec };
        Some(BlockSize::from_log2(w, h))
    }

    /// The place of the size in the order of declaration.
    pub open spec fn place(self) -> int {
        match self {
            BlockSize::BLOCK_4X4 => 0,
            BlockSize::BLOCK_4X8 => 1,
            BlockSize::BLOCK_8X4 => 2,
            BlockSize::BLOCK_8X8 => 3,
            BlockSize::BLOCK_8X16 => 4,
            BlockSize::BLOCK_16X8 => 5,
            BlockSize::BLOCK_16X16 => 6,
            BlockSize::BLOCK_16X32 => 7,
            BlockSize::BLOCK_32X16 => 8,
            BlockSize::BLOCK_32X32 => 9,
            BlockSize::BLOCK_32X64 => 10,
            BlockSize::BLOCK_64X32 => 11,
            BlockSize::BLOCK_64X64 => 12,
            BlockSize::BLOCK_64X128 => 13,
            BlockSize::BLOCK_128X64 => 14,
            BlockSize::BLOCK_128X128 => 15,
            BlockSize::BLOCK_4X16 => 16,
            BlockSize::BLOCK_16X4 => 17,
            BlockSize::BLOCK_8X32 => 18,
            BlockSize::BLOCK_32X8 => 19,
            BlockSize::BLOCK_16X64 => 20,
            BlockSize::BLOCK_64X16 => 21,
        }
    }

    /// The place of the size in the order of declaration.
    pub fn index(self) -> (r: usize)
        ensures
            r == self.place(),
            r < 22,
    {
        match self {
            BlockSize::BLOCK_4X4 => 0,
            BlockSize::BLOCK_4X8 => 1,
            BlockSize::BLOCK_8X4 => 2,
            BlockSize::BLOCK_8X8 => 3,
            BlockSize::BLOCK_8X16 => 4,
            BlockSize::BLOCK_16X8 => 5,
            BlockSize::BLOCK_16X16 => 6,
            BlockSize::BLOCK_16X32 => 7,
            BlockSize::BLOCK_32X16 => 8,
            BlockSize::BLOCK_32X32 => 9,
            BlockSize::BLOCK_32X64 => 10,
            BlockSize::BLOCK_64X32 => 11,
            BlockSize::BLOCK_64X64 => 12,
            BlockSize::BLOCK_64X128 => 13,
            BlockSize::BLOCK_128X64 => 14,
            BlockSize::BLOCK_128X128 => 15,
            BlockSize::BLOCK_4X16 => 16,
            BlockSize::BLOCK_16X4 => 17,
            BlockSize::BLOCK_8X32 => 18,
            BlockSize::BLOCK_32X8 => 19,
            BlockSize::BLOCK_16X64 => 20,
            BlockSize::BLOCK_64X16 => 21,
        }
    }
}

/// No two sizes share both logarithms.
pub proof fn lemma_block_size_by_log2(a: BlockSize, b: BlockSize)
    requires
        a.wl() == b.wl(),
        a.hl() == b.hl(),
    ensures
        a == b,
{
}

/// A position in units of four samples, from the corner of a tile.
#[derive(Clone, Copy, Debug, PartialEq, Eq, Structural)]
pub struct TileBlockOffset {
    pub x: usize,
    pub y: usize,
}

/// A frame that a block is predicted from.
#[allow(non_camel_case_types)]
#[derive(Clone, Copy, Debug, PartialEq, Eq, Structural)]
pub enum RefType {
    INTRA_FRAME,
    LAST_FRAME,
    LAST2_FRAME,
    LAST3_FRAME,
    GOLDEN_FRAME,
    BWDREF_FRAME,
    ALTREF2_FRAME,
    ALTREF_FRAME,
    NONE_FRAME,
}

impl RefType {
    /// The place of a reference among the seven of a frame.
    pub open spec fn slot(self) -> int {
        match self {
            RefType::LAST_FRAME => 0,
            RefType::LAST2_FRAME => 1,
            RefType::LAST3_FRAME => 2,
            RefType::GOLDEN_FRAME => 3,
            RefType::BWDREF_FRAME => 4,
            RefType::ALTREF2_FRAME => 5,
            RefType::ALTREF_FRAME => 6,
            _ => 7,
        }
    }

    /// The place of a reference among the seven of a frame.
    pub fn to_index(self) -> (r: usize)
        requires
            self != RefType::INTRA_FRAME,
            self != RefType::NONE_FRAME,
        ensures
            r == self.slot(),
            r < 7,
    {
        match self {
            RefType::LAST_FRAME => 0,
            RefType::LAST2_FRAME => 1,
            RefType::LAST3_FRAME => 2,
            RefType::GOLDEN_FRAME => 3,
            RefType::BWDREF_FRAME => 4,
            RefType::ALTREF2_FRAME => 5,
            _ => 6,
        }
    }
}

/// How chroma is sampled.
#[derive(Clone, Copy, Debug, PartialEq, Eq, Structural)]
pub enum ChromaSampling {
    /// Half the resolution in both directions.
    Cs420,
    /// Half the horizontal resolution.
    Cs422,
    /// Full resolution.
    Cs444,
    /// No chroma.
    Cs400,
}

/// How a square block is divided.
#[allow(non_camel_case_types)]
#[derive(Clone, Copy, Debug, PartialEq, Eq, Structural)]
pub enum PartitionType {
    PARTITION_NONE,
    PARTITION_HORZ,
    PARTITION_VERT,
    PARTITION_SPLIT,
    PARTITION_INVALID,
}

/// The partition types that are searched, in the order they are tried.
pub const RAV1E_PARTITION_TYPES: [PartitionType; 4] = [
    PartitionType::PARTITION_NONE,
    PartitionType::PARTITION_HORZ,
    PartitionType::PARTITION_VERT,
    PartitionType::PARTITION_SPLIT,
];

impl BlockSize {
    /// The size can be divided that way: only squares of at least 8x8 can be
    /// divided at all.
    pub open spec fn divisible(self, p: PartitionType) -> bool {
        ||| p == PartitionType::PARTITION_NONE
        ||| p != PartitionType::PARTITION_INVALID && self.wl() == self.hl() && self.wl() >= 3
    }

    /// The logarithms of the parts.
    pub open spec fn part_log2(self, p: PartitionType) -> (int, int) {
        match p {
            PartitionType::PARTITION_HORZ => (self.wl(), self.hl() - 1),
            PartitionType::PARTITION_VERT => (self.wl() - 1, self.hl()),
            PartitionType::PARTITION_SPLIT => (self.wl() - 1, self.hl() - 1),
            _ => (self.wl(), self.hl()),
        }
    }

    /// The size of the parts.
    pub fn subsize(self, p: PartitionType) -> (r: BlockSize)
        requires
            self.divisible(p),
        ensures
            (r.wl(), r.hl()) == self.part_log2(p),
    {
        let wl: usize = self.width_log2();
        let hl: usize = self.height_log2();
        match p {
            PartitionType::PARTITION_HORZ => BlockSize::from_log2(wl, hl - 1),
            PartitionType::PARTITION_VERT => BlockSize::from_log2(wl - 1, hl),
            PartitionType::PARTITION_SPLIT => BlockSize::from_log2(wl - 1, hl - 1),
            _ => self,
        }
    }
}

/// The corners of the parts of a block whose parts are `w` by `h` units.
pub open spec fn part_offsets(bo: TileBlockOffset, p: PartitionType, w: int, h: int) -> Seq<TileBlockOffset> {
    let right = TileBlockOffset { x: (bo.x + w) as usize, y: bo.y };
    let below = TileBlockOffset { x: bo.x, y: (bo.y + h) as usize };
    let both = TileBlockOffset { x: (bo.x + w) as usize, y: (bo.y + h) as usize };
    match p {
        PartitionType::PARTITION_HORZ => seq![bo, below],
        PartitionType::PARTITION_VERT => seq![bo, right],
        PartitionType::PARTITION_SPLIT => seq![bo, right, below, both],
        _ => seq![bo],
    }
}

/// The corners of the parts of a block, in coding order.
pub fn get_sub_partitions(bo: TileBlockOffset, partition: PartitionType, subsize: BlockSize) -> (r: OffsetList)
    requires
        bo.x <= usize::MAX - 32,
        bo.y <= usize::MAX - 32,
    ensures
        listed_offsets(r) == part_offsets(bo, partition, subsize.w() / 4, subsize.h() / 4),
{
    let w: usize = subsize.width_mi();
    let h: usize = subsize.height_mi();
    let mut out: OffsetList = new_offsets();
    push_offset(&mut out, bo);
    match partition {
        PartitionType::PARTITION_HORZ => {
            push_offset(&mut out, TileBlockOffset { x: bo.x, y: bo.y + h });
        },
        PartitionType::PARTITION_VERT => {
            push_offset(&mut out, TileBlockOffset { x: bo.x + w, y: bo.y });
        },
        PartitionType::PARTITION_SPLIT => {
            push_offset(&mut out, TileBlockOffset { x: bo.x + w, y: bo.y });
            push_offset(&mut out, TileBlockOffset { x: bo.x, y: bo.y + h });
            push_offset(&mut out, TileBlockOffset { x: bo.x + w, y: bo.y + h });
        },
        _ => {},
    }
    assert(listed_offsets(out) =~= part_offsets(bo, partition, subsize.w() / 4, subsize.h() / 4));
    out
}

/// The parts of a block tile it: every unit of the block lies in exactly one.
pub proof fn law_parts_tile_the_block(bo: TileBlockOffset, bsize: BlockSize, sub: BlockSize, p: PartitionType, x: int, y: int)
    requires
        bsize.divisible(p),
        (sub.wl(), sub.hl()) == bsize.part_log2(p),
        bo.x <= usize::MAX - 32,
        bo.y <= usize::MAX - 32,
        bo.x <= x < bo.x + bsize.w() / 4,
        bo.y <= y < bo.y + bsize.h() / 4,
    ensures
        ({
            let parts = part_offsets(bo, p, sub.w() / 4, sub.h() / 4);
            &&& exists|i: int| 0 <= i < parts.len() && #[trigger] in_part(parts[i], sub, x, y)
            &&& forall|i: int, j: int| 0 <= i < j < parts.len() ==> !(#[trigger] in_part(parts[i], sub, x, y) && #[trigger] in_part(parts[j], sub, x, y))
        }),
{
    let parts = part_offsets(bo, p, sub.w() / 4, sub.h() / 4);
    let w = sub.w() / 4;
    let h = sub.h() / 4;
    let far_x = x >= bo.x + w;
    let far_y = y >= bo.y + h;
    let i = match p {
        PartitionType::PARTITION_HORZ => if far_y { 1int } else { 0 },
        PartitionType::PARTITION_VERT => if far_x { 1int } else { 0 },
        PartitionType::PARTITION_SPLIT => (if far_x { 1int } else { 0 }) + (if far_y { 2int } else { 0 }),
        _ => 0,
    };
    assert(in_part(parts[i], sub, x, y));
}

/// The unit `(x, y)` lies in the part at `o`.
pub open spec fn in_part(o: TileBlockOffset, sub: BlockSize, x: int, y: int) -> bool {
    o.x <= x < o.x + sub.w() / 4 && o.y <= y < o.y + sub.h() / 4
}

/// Sizes are what they are called: width by height, both powers of two.
pub proof fn law_blocks_have_their_names(b: BlockSize)
    ensures
        (b.w(), b.h()) == match b {
            BlockSize::BLOCK_4X4 => (4int, 4int),
            BlockSize::BLOCK_4X8 => (4, 8),
            BlockSize::BLOCK_8X4 => (8, 4),
            BlockSize::BLOCK_8X8 => (8, 8),
            BlockSize::BLOCK_8X16 => (8, 16),
            BlockSize::BLOCK_16X8 => (16, 8),
            BlockSize::BLOCK_16X16 => (16, 16),
            BlockSize::BLOCK_16X32 => (16, 32),
            BlockSize::BLOCK_32X16 => (32, 16),
            BlockSize::BLOCK_32X32 => (32, 32),
            BlockSize::BLOCK_32X64 => (32, 64),
            BlockSize::BLOCK_64X32 => (64, 32),
            BlockSize::BLOCK_64X64 => (64, 64),
            BlockSize::BLOCK_64X128 => (64, 128),
            BlockSize::BLOCK_128X64 => (128, 64),
            BlockSize::BLOCK_128X128 => (128, 128),
            BlockSize::BLOCK_4X16 => (4, 16),
            BlockSize::BLOCK_16X4 => (16, 4),
            BlockSize::BLOCK_8X32 => (8, 32),
            BlockSize::BLOCK_32X8 => (32, 8),
            BlockSize::BLOCK_16X64 => (16, 64),
            BlockSize::BLOCK_64X16 => (64, 16),
        },
        b.w() == vstd::arithmetic::power2::pow2(b.wl() as nat),
        b.h() == vstd::arithmetic::power2::pow2(b.hl() as nat),
{
    vstd::arithmetic::power2::lemma2_to64();
    vstd::arithmetic::power2::lemma_pow2_unfold(7);
}

/// The sizes stand in the order in which the format numbers them.
pub proof fn law_blocks_are_numbered(b: BlockSize)
    ensures
        seq![
            BlockSize::BLOCK_4X4,
            BlockSize::BLOCK_4X8,
            BlockSize::BLOCK_8X4,
            BlockSize::BLOCK_8X8,
            BlockSize::BLOCK_8X16,
            BlockSize::BLOCK_16X8,
            BlockSize::BLOCK_16X16,
            BlockSize::BLOCK_16X32,
            BlockSize::BLOCK_32X16,
            BlockSize::BLOCK_32X32,
            BlockSize::BLOCK_32X64,
            BlockSize::BLOCK_64X32,
            BlockSize::BLOCK_64X64,
            BlockSize::BLOCK_64X128,
            BlockSize::BLOCK_128X64,
            BlockSize::BLOCK_128X128,
            BlockSize::BLOCK_4X16,
            BlockSize::BLOCK_16X4,
            BlockSize::BLOCK_8X32,
            BlockSize::BLOCK_32X8,
            BlockSize::BLOCK_16X64,
            BlockSize::BLOCK_64X16,
        ][b.place()] == b,
        0 <= b.place() < 22,
{
}

/// A size exceeds another if it is at least as wide and as high and is not the same; it
/// is within another if it is at most as wide and as high.
pub proof fn law_sizes_are_ordered_by_their_sides(a: BlockSize, b: BlockSize)
    ensures
        a.exceeds(b) <==> a.w() >= b.w() && a.h() >= b.h() && a != b,
        a.within(b) <==> a.w() <= b.w() && a.h() <= b.h(),
{
    if a.wl() == b.wl() && a.hl() == b.hl() {
        lemma_block_size_by_log2(a, b);
    }
}

/// On a subsampled plane a side is halved, but stays at four samples.
pub proof fn law_sides_are_halved_on_subsampled_planes(b: BlockSize, s: BlockSize, xdec: int, ydec: int)
    requires
        b.subsamples(xdec, ydec),
        s.wl() == BlockSize::sub_log2(b.wl(), xdec),
        s.hl() == BlockSize::sub_log2(b.hl(), ydec),
    ensures
        xdec == 0 ==> s.w() == b.w(),
        ydec == 0 ==> s.h() == b.h(),
        xdec == 1 ==> s.w() == if b.w() == 4 { 4 } else { b.w() / 2 },
        ydec == 1 ==> s.h() == if b.h() == 4 { 4 } else { b.h() / 2 },
{
}

/// A horizontal partition cuts a block into an upper and a lower half, a vertical one
/// into a left and a right half, and a split into quarters in raster order.
pub proof fn law_parts_lie_where_their_partition_says(bo: TileBlockOffset, bsize: BlockSize, sub: BlockSize, p: PartitionType)
    requires
        bsize.divisible(p),
        (sub.wl(), sub.hl()) == bsize.part_log2(p),
        bo.x <= usize::MAX - 32,
        bo.y <= usize::MAX - 32,
    ensures
        ({
            let parts = part_offsets(bo, p, sub.w() / 4, sub.h() / 4);
            let w = bsize.w() / 4;
            let h = bsize.h() / 4;
            &&& parts[0] == bo
            &&& p == PartitionType::PARTITION_NONE ==> sub == bsize && parts.len() == 1
            &&& p == PartitionType::PARTITION_HORZ ==> {
                &&& sub.w() == bsize.w() && 2 * sub.h() == bsize.h()
                &&& parts.len() == 2 && parts[1].x == bo.x && parts[1].y == bo.y + h / 2
            }
            &&& p == PartitionType::PARTITION_VERT ==> {
                &&& 2 * sub.w() == bsize.w() && sub.h() == bsize.h()
                &&& parts.len() == 2 && parts[1].x == bo.x + w / 2 && parts[1].y == bo.y
            }
            &&& p == PartitionType::PARTITION_SPLIT ==> {
                &&& 2 * sub.w() == bsize.w() && 2 * sub.h() == bsize.h()
                &&& parts.len() == 4
                &&& parts[1].x == bo.x + w / 2 && parts[1].y == bo.y
                &&& parts[2].x == bo.x && parts[2].y == bo.y + h / 2
                &&& parts[3].x == bo.x + w / 2 && parts[3].y == bo.y + h / 2
            }
        }),
{
    if p == PartitionType::PARTITION_NONE {
        lemma_block_size_by_log2(sub, bsize);
    }
}

/// A block can be divided from 8x8 on, and only if it is square.
pub proof fn law_only_squares_are_divided(b: BlockSize, p: PartitionType)
    requires
        p != PartitionType::PARTITION_NONE,
        p != PartitionType::PARTITION_INVALID,
    ensures
        b.divisible(p) <==> b.w() == b.h() && b.w() >= 8,
        b.divisible(PartitionType::PARTITION_NONE),
        !b.divisible(PartitionType::PARTITION_INVALID),
{
}

/// The references stand in the order in which the format numbers them.
pub proof fn law_references_are_numbered(r: RefType)
    requires
        r != RefType::INTRA_FRAME,
        r != RefType::NONE_FRAME,
    ensures
        seq![
            RefType::LAST_FRAME,
            RefType::LAST2_FRAME,
            RefType::LAST3_FRAME,
            RefType::GOLDEN_FRAME,
            RefType::BWDREF_FRAME,
            RefType::ALTREF2_FRAME,
            RefType::ALTREF_FRAME,
        ][r.slot()] == r,
        0 <= r.slot() < 7,
{
}

} // verus!
