//! Coded blocks of a tile, the contexts along their edges, and the symbols that
//! are written.

use vstd::prelude::*;

use crate::mc::MotionVector;
use crate::partition::{BlockSize, RefType, TileBlockOffset};
use crate::predict::PredictionMode;
use crate::transform::TxSize;

verus! {

/// Units along the side of a superblock of 64 samples.
pub const MIB_SIZE: usize = 16;

/// What is known of a coded block when later blocks select their contexts.
#[derive(Clone, Copy, Debug)]
pub struct Block {
    pub mode: PredictionMode,
    pub bsize: BlockSize,
    /// Width in units of four samples.
    pub n4_w: u8,
    /// Height in units of four samples.
    pub n4_h: u8,
    pub skip: bool,
    pub ref_frames: [RefType; 2],
    pub mv: [MotionVector; 2],
}

impl Block {
    /// The block is predicted from other frames.
    pub fn is_inter(&self) -> (r: bool)
        ensures
            r == self.mode.inter(),
    {
        self.mode.is_inter()
    }
}

/// The blocks of a tile, one entry for each unit of four by four samples.
pub struct TileBlocks {
    pub data: Vec<Block>,
    pub cols: usize,
    pub rows: usize,
}

impl TileBlocks {
    /// The entries fill the tile, and every block is at most 128 samples wide
    /// and high.
    pub open spec fn wf(&self) -> bool {
        &&& self.data.len() == self.rows * self.cols
        &&& forall|i: int| 0 <= i < self.data.len() ==> (#[trigger] self.data@[i]).n4_w <= 32 && self.data@[i].n4_h <= 32
    }

    /// The block at column `x`, row `y`.
    pub open spec fn block(&self, x: int, y: int) -> Block {
        self.data@[y * self.cols + x]
    }

    /// The block at column `x`, row `y`.
    pub fn at(&self, x: usize, y: usize) -> (r: Block)
        requires
            self.wf(),
            x < self.cols,
            y < self.rows,
        ensures
            r == self.block(x as int, y as int),
            r.n4_w <= 32,
            r.n4_h <= 32,
    {
        proof {
            crate::plane::lemma_raster(x as int, y as int, self.cols as int, self.rows as int);
            assert(0 <= y * self.cols) by (nonlinear_arith);
        }
        self.data[y * self.cols + x]
    }
}

/// The transform sizes along the edges of the coded area.
pub struct BlockContext {
    /// Transform width above, for each unit across the tile.
    pub above_tx_context: Vec<u8>,
    /// Transform height to the left, for each unit down the superblock.
    pub left_tx_context: [u8; 16],
    pub blocks: TileBlocks,
}

/// The rows of a superblock repeat.
pub open spec fn y_in_sb(bo: TileBlockOffset) -> int {
    bo.y as int % 16
}

/// A run of `n` entries from `at` on is replaced by `v`.
pub open spec fn filled(s: Seq<u8>, at: int, n: int, v: u8) -> Seq<u8> {
    Seq::new(s.len(), |i: int| if at <= i < at + n { v } else { s[i] })
}

impl BlockContext {
    /// The blocks fill the tile, and the context above has room for a block that
    /// reaches past the tile's right edge.
    pub open spec fn wf(&self) -> bool {
        &&& self.blocks.wf()
        &&& self.above_tx_context.len() >= self.blocks.cols + 32
    }

    /// Records the transform size of a block: its own width and height where it
    /// is skipped.
    pub fn update_tx_size_context(&mut self, bo: TileBlockOffset, bsize: BlockSize, tx_size: TxSize, skip: bool)
        requires
            old(self).wf(),
            bo.x < old(self).blocks.cols,
            y_in_sb(bo) + bsize.h() / 4 <= 16,
        ensures
            final(self).wf(),
            final(self).blocks == old(self).blocks,
            final(self).above_tx_context@ == filled(
                old(self).above_tx_context@,
                bo.x as int,
                bsize.w() / 4,
                (if skip { bsize.w() } else { tx_size.w() }) as u8,
            ),
            final(self).left_tx_context@ == filled(
                old(self).left_tx_context@,
                y_in_sb(bo),
                bsize.h() / 4,
                (if skip { bsize.h() } else { tx_size.h() }) as u8,
            ),
    {
        let n4_w: usize = bsize.width_mi();
        let n4_h: usize = bsize.height_mi();
        let tx_w: u8 = if skip { bsize.width() as u8 } else { tx_size.width() as u8 };
        let tx_h: u8 = if skip { bsize.height() as u8 } else { tx_size.height() as u8 };
        let ghost above = self.above_tx_context@;
        let ghost left = self.left_tx_context@;
        let mut i: usize = 0;
        while i < n4_w
            invariant
                i <= n4_w <= 32,
                self.wf(),
                bo.x < self.blocks.cols,
                self.blocks == old(self).blocks,
                self.left_tx_context@ == left,
                self.above_tx_context@ =~= filled(above, bo.x as int, i as int, tx_w),
            decreases n4_w - i,
        {
            self.above_tx_context.set(bo.x + i, tx_w);
            i = i + 1;
        }
        let y: usize = bo.y % MIB_SIZE;
        let mut j: usize = 0;
        while j < n4_h
            invariant
                j <= n4_h,
                y + n4_h <= 16,
                self.wf(),
                self.blocks == old(self).blocks,
                self.above_tx_context@ == filled(above, bo.x as int, n4_w as int, tx_w),
                self.left_tx_context@ =~= filled(left, y as int, j as int, tx_h),
            decreases n4_h - j,
        {
            self.left_tx_context[y + j] = tx_h;
            j = j + 1;
        }
    }
}

/// A probability model, by the syntax element that it codes and its contexts.
#[derive(Clone, Copy, Debug, PartialEq, Eq, Structural)]
pub enum Cdf {
    /// Inter transform type of the set with sixteen types, by square size.
    InterTx1(usize),
    /// Inter transform type of the set with twelve types, by square size.
    InterTx2(usize),
    /// Inter transform type of the set with two types, by square size.
    InterTx3(usize),
    /// Intra transform type of the set with seven types, by square size and mode.
    IntraTx1(usize, usize),
    /// Intra transform type of the set with five types, by square size and mode.
    IntraTx2(usize, usize),
    /// Transform depth of a block whose largest transform is 8x8.
    TxSize8x8(usize),
    /// Transform depth of a larger block, by category and context.
    TxSize(usize, usize),
    /// Whether an inter transform block is split.
    TxfmPartition(usize),
}

/// A coded symbol: its value and the model that codes and learns it.
#[derive(Clone, Copy, Debug, PartialEq, Eq, Structural)]
pub struct Symbol {
    pub cdf: Cdf,
    pub value: u32,
}

/// Where coded symbols go.
pub trait Writer {
    /// The symbols written so far.
    spec fn symbols(&self) -> Seq<Symbol>;

    /// Writes one symbol and adapts its model.
    fn symbol_with_update(&mut self, s: Symbol)
        ensures
            final(self).symbols() == old(self).symbols().push(s),
    ;
}

/// A writer that keeps the symbols it is given.
pub struct SymbolLog {
    pub log: Vec<Symbol>,
}

impl Writer for SymbolLog {
    open spec fn symbols(&self) -> Seq<Symbol> {
        self.log@
    }

    fn symbol_with_update(&mut self, s: Symbol) {
        self.log.push(s);
    }
}

impl SymbolLog {
    /// A log without symbols.
    pub fn new() -> (r: Self)
        ensures
            r.symbols() == Seq::<Symbol>::empty(),
    {
        SymbolLog { log: Vec::new() }
    }
}

/// Selects the contexts of symbols and writes them.
pub struct ContextWriter {
    pub bc: BlockContext,
}

/// A run that is filled has the value from its first place to its last, and everything
/// around it stays.
pub proof fn law_filled_runs_end_where_they_should(s: Seq<u8>, at: int, n: int, v: u8, i: int)
    requires
        0 <= i < s.len(),
    ensures
        filled(s, at, n, v).len() == s.len(),
        at <= i && i < at + n ==> filled(s, at, n, v)[i] == v,
        i < at || at + n <= i ==> filled(s, at, n, v)[i] == s[i],
{
}

/// The contexts to the left repeat with every superblock of sixteen units.
pub proof fn law_left_contexts_repeat(bo: TileBlockOffset, other: TileBlockOffset)
    ensures
        0 <= y_in_sb(bo) < 16,
        bo.y < 16 ==> y_in_sb(bo) == bo.y,
        other.y == bo.y + 16 ==> y_in_sb(other) == y_in_sb(bo),
        other.x != bo.x && other.y == bo.y ==> y_in_sb(other) == y_in_sb(bo),
{
}

} // verus!
