//! The search for the partition of a superblock: bottom-up with recursion into
//! every part, and top-down with a decision at each block.

use vstd::prelude::*;

use crate::outside::{listed_offsets, listed_types, new_offsets, new_types, offsets_slice, push_type, types_slice, OffsetList, TypeList};
use crate::partition::{get_sub_partitions, part_offsets, BlockSize, ChromaSampling, PartitionType, TileBlockOffset};
use crate::varpart::{variance_of, VarTree};

verus! {

/// The block sizes between which a frame's blocks are divided.
#[derive(Clone, Copy, Debug, PartialEq, Eq, Structural)]
pub struct PartitionRange {
    pub min: BlockSize,
    pub max: BlockSize,
}

/// A block of a tile under search, and what bears on its partition.
#[derive(Clone, Copy, Debug, PartialEq, Eq, Structural)]
pub struct SearchBlock {
    pub bsize: BlockSize,
    pub bo: TileBlockOffset,
    pub mi_width: usize,
    pub mi_height: usize,
    pub range: PartitionRange,
    pub has_inter: bool,
    pub chroma_sampling: ChromaSampling,
    /// Up to this size blocks are also divided into two.
    pub non_square_max: BlockSize,
}

impl SearchBlock {
    /// The tile and the block are small enough for their positions to add up, and
    /// the range ends at 64x64.
    pub open spec fn wf(self) -> bool {
        &&& self.bo.x <= usize::MAX - 64
        &&& self.bo.y <= usize::MAX - 64
        &&& self.range.max.within(BlockSize::BLOCK_64X64)
        &&& self.range.min.wl() >= 2
    }

    /// The block's corner lies outside the tile.
    pub open spec fn outside(self) -> bool {
        self.bo.x >= self.mi_width || self.bo.y >= self.mi_height
    }

    /// The right half of the block reaches into the tile.
    pub open spec fn has_cols(self) -> bool {
        self.bo.x + (self.bsize.w() / 4) / 2 < self.mi_width
    }

    /// The lower half of the block reaches into the tile.
    pub open spec fn has_rows(self) -> bool {
        self.bo.y + (self.bsize.w() / 4) / 2 < self.mi_height
    }

    /// The block reaches past the tile.
    pub open spec fn straddles(self) -> bool {
        self.bo.x + self.bsize.w() / 4 > self.mi_width || self.bo.y + self.bsize.h() / 4 > self.mi_height
    }

    /// The block cannot be coded whole: it is too large, or half of it or more
    /// lies outside the tile.
    pub open spec fn must_split(self) -> bool {
        self.bsize.wl() == self.bsize.hl() && (self.bsize.exceeds(self.range.max) || !self.has_cols() || !self.has_rows())
    }

    /// The block may be divided. Inter blocks below 8x8 need chroma at half
    /// resolution in both directions.
    pub open spec fn can_split(self) -> bool {
        if self.has_inter && self.chroma_sampling != ChromaSampling::Cs420 && self.bsize.within(BlockSize::BLOCK_8X8) {
            false
        } else {
            (self.bsize.exceeds(self.range.min) && self.bsize.wl() == self.bsize.hl()) || self.must_split()
        }
    }

    /// The partitions that are tried: the halves, where they are allowed and the
    /// second reaches into the tile, and the quarters.
    pub open spec fn candidates(self) -> Seq<PartitionType> {
        let halves = self.bsize.within(self.non_square_max) || self.straddles();
        (if halves && self.has_cols() { seq![PartitionType::PARTITION_HORZ] } else { seq![] })
            + (if halves && self.has_rows() && self.chroma_sampling != ChromaSampling::Cs422 { seq![PartitionType::PARTITION_VERT] } else { seq![] })
            + seq![PartitionType::PARTITION_SPLIT]
    }

    /// Whether the block's corner lies outside the tile.
    pub fn is_outside(&self) -> (r: bool)
        ensures
            r == self.outside(),
    {
        self.bo.x >= self.mi_width || self.bo.y >= self.mi_height
    }

    /// Whether the halves of the block reach into the tile, columns then rows.
    fn halves_inside(&self) -> (r: (bool, bool))
        requires
            self.wf(),
        ensures
            r.0 == self.has_cols(),
            r.1 == self.has_rows(),
    {
        let hbs: usize = self.bsize.width_mi() / 2;
        (self.bo.x + hbs < self.mi_width, self.bo.y + hbs < self.mi_height)
    }

    /// Whether the block must be divided.
    pub fn is_must_split(&self) -> (r: bool)
        requires
            self.wf(),
        ensures
            r == self.must_split(),
    {
        let (has_cols, has_rows): (bool, bool) = self.halves_inside();
        self.bsize.is_sqr() && (self.bsize.gt(self.range.max) || !has_cols || !has_rows)
    }

    /// Whether the block may be divided.
    pub fn is_can_split(&self) -> (r: bool)
        requires
            self.wf(),
        ensures
            r == self.can_split(),
    {
        if self.has_inter && self.chroma_sampling != ChromaSampling::Cs420 && self.bsize.le(BlockSize::BLOCK_8X8) {
            false
        } else {
            (self.bsize.gt(self.range.min) && self.bsize.is_sqr()) || self.is_must_split()
        }
    }

    /// The partitions that are tried, in order.
    pub fn partition_types(&self) -> (r: TypeList)
        requires
            self.wf(),
        ensures
            listed_types(r) == self.candidates(),
    {
        let (has_cols, has_rows): (bool, bool) = self.halves_inside();
        let straddle_x: bool = self.bo.x + self.bsize.width_mi() > self.mi_width;
        let straddle_y: bool = self.bo.y + self.bsize.height_mi() > self.mi_height;
        let mut out: TypeList = new_types();
        if self.bsize.le(self.non_square_max) || straddle_x || straddle_y {
            if has_cols {
                push_type(&mut out, PartitionType::PARTITION_HORZ);
            }
            if self.chroma_sampling != ChromaSampling::Cs422 && has_rows {
                push_type(&mut out, PartitionType::PARTITION_VERT);
            }
        }
        push_type(&mut out, PartitionType::PARTITION_SPLIT);
        assert(listed_types(out) =~= self.candidates());
        out
    }
}

/// A partition with the rate-distortion cost of coding it.
#[derive(Clone, Copy, Debug, PartialEq, Eq, Structural)]
pub struct Outcome {
    pub partition: PartitionType,
    pub cost: u64,
}

/// The cheapest of the first `n` outcomes; on a tie the one that came first.
pub open spec fn cheapest(h: Seq<Outcome>, n: int) -> Option<Outcome>
    decreases n,
{
    if n <= 0 {
        None
    } else {
        match cheapest(h, n - 1) {
            None => Some(h[n - 1]),
            Some(b) => if h[n - 1].cost < b.cost { Some(h[n - 1]) } else { Some(b) },
        }
    }
}

/// What the search is waiting for.
#[derive(Clone, Copy, Debug, PartialEq, Eq, Structural)]
pub enum Phase {
    /// Nothing has been asked yet.
    Start,
    /// The cost of the block coded whole.
    Whole,
    /// The cost of signalling the candidate's partition.
    Signal,
    /// The cost of the candidate up to its current part.
    Part,
    /// Nothing: the winner is known.
    Done,
}

/// What has happened. Costs are non-negative and below the largest value; where
/// they stand for real numbers, in the same order.
#[derive(Debug)]
pub enum SearchEvent<M> {
    /// Begin.
    Begin,
    /// The block was coded whole with these modes, at this cost.
    WholeCoded { cost: u64, modes: M },
    /// The partition was signalled, at this cost.
    Signalled { cost: u64 },
    /// The part had no cost: no partition of it was found.
    PartFailed,
    /// The part was coded; the cost is that of the candidate so far. A part that was
    /// not divided further has modes of its own.
    PartCoded { cost: u64, part_modes: Option<M> },
}

/// What to do next.
#[derive(Clone, Copy, Debug, PartialEq, Eq, Structural)]
pub enum SearchAction {
    /// Decide the modes of the whole block and report the cost; signal the
    /// partition first where `signal` is set, and encode the block for good where
    /// `encode` is set.
    CodeWhole { signal: bool, encode: bool },
    /// Go back to the state before the block, signal the partition where `signal`
    /// is set, and report the cost.
    Try { partition: PartitionType, signal: bool },
    /// Search the part at this offset, which need not be pursued beyond `bound`.
    CodePart { offset: TileBlockOffset, bound: u64 },
    /// Nothing more.
    Stop,
}

/// The bottom-up search of one block. The modes of blocks are of any type.
pub struct BottomUp<M> {
    pub block: SearchBlock,
    /// Candidates are abandoned once they cannot win.
    pub early_exit: bool,
    /// The cost that the enclosing search has to beat.
    pub ref_cost: u64,
    pub candidates: TypeList,
    pub phase: Phase,
    /// The candidate under trial.
    pub candidate: usize,
    /// Its parts that lie inside the tile.
    pub parts: Vec<TileBlockOffset>,
    pub part: usize,
    pub cost: u64,
    pub best: Option<Outcome>,
    /// The modes of the candidate's parts so far, unless it is the quarters.
    pub child: Vec<M>,
    /// The modes of the cheapest outcome so far, the quarters apart.
    pub kept: Vec<M>,
    /// Every partition that was coded to the end.
    pub tried: Ghost<Seq<Outcome>>,
    /// The modes of each of them.
    pub tried_modes: Ghost<Seq<Seq<M>>>,
}

/// The modes of the cheapest of the first `n` outcomes. The quarters have none of their
/// own: where they are cheaper, the modes of the cheapest before them stay.
pub open spec fn winning_modes<M>(h: Seq<Outcome>, m: Seq<Seq<M>>, n: int) -> Seq<M>
    decreases n,
{
    if n <= 0 {
        seq![]
    } else if wins(h[n - 1], cheapest(h, n - 1)) && h[n - 1].partition != PartitionType::PARTITION_SPLIT {
        m[n - 1]
    } else {
        winning_modes(h, m, n - 1)
    }
}

/// There is an outcome, and it is not the quarters.
pub open spec fn has_modes(best: Option<Outcome>) -> bool {
    best matches Some(o) && o.partition != PartitionType::PARTITION_SPLIT
}

/// The outcome costs less than the best so far.
pub open spec fn wins(o: Outcome, best: Option<Outcome>) -> bool {
    match best {
        None => true,
        Some(b) => o.cost < b.cost,
    }
}

/// The parts that lie inside the tile.
pub open spec fn inside_parts(s: Seq<TileBlockOffset>, b: SearchBlock, n: int) -> Seq<TileBlockOffset>
    decreases n,
{
    if n <= 0 {
        seq![]
    } else if s[n - 1].x >= b.mi_width || s[n - 1].y >= b.mi_height {
        inside_parts(s, b, n - 1)
    } else {
        inside_parts(s, b, n - 1).push(s[n - 1])
    }
}

/// The parts of a partition of the block that lie inside the tile.
pub open spec fn parts_of(b: SearchBlock, p: PartitionType) -> Seq<TileBlockOffset> {
    let l = b.bsize.part_log2(p);
    let all = part_offsets(b.bo, p, crate::transform::side_of(l.0) / 4, crate::transform::side_of(l.1) / 4);
    inside_parts(all, b, all.len() as int)
}

/// Where the search stands.
pub struct SearchView<M> {
    pub phase: Phase,
    pub candidate: int,
    pub part: int,
    pub cost: u64,
    pub child: Seq<M>,
    pub tried: Seq<Outcome>,
    pub tried_modes: Seq<Seq<M>>,
}

/// The cheapest outcome so far.
pub open spec fn best_of<M>(v: SearchView<M>) -> Option<Outcome> {
    cheapest(v.tried, v.tried.len() as int)
}

/// The cost to beat: none yet is the largest value.
pub open spec fn cost_to_beat<M>(v: SearchView<M>) -> u64 {
    match best_of(v) {
        Some(b) => b.cost,
        None => u64::MAX,
    }
}

/// The search turns to candidate `k`, or ends where there is none.
pub open spec fn turn_to<M>(b: SearchBlock, v: SearchView<M>, k: int) -> (SearchView<M>, SearchAction) {
    if k < b.candidates().len() {
        (
            SearchView { phase: Phase::Signal, candidate: k, part: 0, child: seq![], ..v },
            SearchAction::Try { partition: b.candidates()[k], signal: BlockSize::BLOCK_8X8.within(b.bsize) },
        )
    } else {
        (SearchView { phase: Phase::Done, ..v }, SearchAction::Stop)
    }
}

/// The search turns to part `k` of its candidate. After the last part the
/// candidate is one of those that were tried, and the next follows.
pub open spec fn turn_to_part<M>(b: SearchBlock, v: SearchView<M>, k: int) -> (SearchView<M>, SearchAction) {
    let p = b.candidates()[v.candidate];
    let parts = parts_of(b, p);
    if k < parts.len() {
        (
            SearchView { phase: Phase::Part, part: k, ..v },
            SearchAction::CodePart { offset: parts[k], bound: cost_to_beat(v) },
        )
    } else {
        turn_to(
            b,
            SearchView { tried: v.tried.push(Outcome { partition: p, cost: v.cost }), tried_modes: v.tried_modes.push(v.child), ..v },
            v.candidate + 1,
        )
    }
}

/// The candidate is abandoned at this cost: it cannot win, here or in the enclosing
/// search.
pub open spec fn exits<M>(b: SearchBlock, early_exit: bool, ref_cost: u64, v: SearchView<M>, cost: u64) -> bool {
    !b.must_split() && early_exit && (cost >= cost_to_beat(v) || cost >= ref_cost)
}

/// The next state and action of the search.
pub open spec fn search_next<M>(b: SearchBlock, early_exit: bool, ref_cost: u64, v: SearchView<M>, ev: SearchEvent<M>) -> (SearchView<M>, SearchAction) {
    match ev {
        SearchEvent::Begin => if b.outside() {
            (SearchView { phase: Phase::Done, ..v }, SearchAction::Stop)
        } else if !b.must_split() {
            (
                SearchView { phase: Phase::Whole, ..v },
                SearchAction::CodeWhole { signal: BlockSize::BLOCK_8X8.within(b.bsize) && b.bsize.wl() == b.bsize.hl(), encode: !b.can_split() },
            )
        } else {
            turn_to(b, v, 0)
        },
        SearchEvent::WholeCoded { cost, modes } => {
            let w = SearchView {
                tried: v.tried.push(Outcome { partition: PartitionType::PARTITION_NONE, cost }),
                tried_modes: v.tried_modes.push(seq![modes]),
                ..v
            };
            if b.can_split() { turn_to(b, w, 0) } else { (SearchView { phase: Phase::Done, ..w }, SearchAction::Stop) }
        },
        SearchEvent::Signalled { cost } => turn_to_part(b, SearchView { cost, ..v }, 0),
        SearchEvent::PartFailed => turn_to_part(b, v, v.part + 1),
        SearchEvent::PartCoded { cost, part_modes } => {
            let w = SearchView { cost, ..v };
            if exits(b, early_exit, ref_cost, v, cost) {
                turn_to(b, w, v.candidate + 1)
            } else if b.candidates()[v.candidate] == PartitionType::PARTITION_SPLIT {
                turn_to_part(b, w, v.part + 1)
            } else {
                turn_to_part(b, SearchView { child: v.child.push(part_modes->0), ..w }, v.part + 1)
            }
        },
    }
}

/// The event answers what the search is waiting for. A part of a block divided in two
/// that stays in the search has modes, and a block divided in two does not win without
/// any.
pub open spec fn answers<M>(b: SearchBlock, early_exit: bool, ref_cost: u64, v: SearchView<M>, ev: SearchEvent<M>) -> bool {
    let in_two = b.candidates()[v.candidate] != PartitionType::PARTITION_SPLIT;
    match ev {
        SearchEvent::Begin => v.phase == Phase::Start,
        SearchEvent::WholeCoded { cost, .. } => v.phase == Phase::Whole && cost < u64::MAX,
        SearchEvent::Signalled { cost } => v.phase == Phase::Signal && cost < u64::MAX,
        SearchEvent::PartFailed => {
            &&& v.phase == Phase::Part
            &&& in_two && v.child.len() == 0 && v.part + 1 >= parts_of(b, b.candidates()[v.candidate]).len() ==> v.cost >= cost_to_beat(v)
        },
        SearchEvent::PartCoded { cost, part_modes } => {
            &&& v.phase == Phase::Part
            &&& cost < u64::MAX
            &&& in_two && !exits(b, early_exit, ref_cost, v, cost) ==> part_modes is Some
        },
    }
}

/// A block that the search can handle: one that must be divided can be.
pub open spec fn searchable(b: SearchBlock) -> bool {
    b.wf() && (!b.outside() && b.must_split() ==> b.can_split())
}

/// The state of a search is consistent.
pub open spec fn view_ok<M>(b: SearchBlock, v: SearchView<M>) -> bool {
    &&& v.tried_modes.len() == v.tried.len()
    &&& v.phase == Phase::Signal ==> v.child.len() == 0
    &&& has_modes(best_of(v)) ==> winning_modes(v.tried, v.tried_modes, v.tried.len() as int).len() > 0
    &&& v.phase != Phase::Start && v.phase != Phase::Done ==> !b.outside()
    &&& v.phase == Phase::Start ==> v.tried.len() == 0
    &&& v.phase == Phase::Whole ==> v.tried.len() == 0 && !b.must_split()
    &&& v.phase == Phase::Signal || v.phase == Phase::Part ==> {
        &&& b.can_split()
        &&& 0 <= v.candidate < b.candidates().len()
        &&& !b.must_split() ==> v.tried.len() > 0
    }
    &&& v.phase == Phase::Signal ==> v.part == 0
    &&& v.phase == Phase::Part ==> 0 <= v.part < parts_of(b, b.candidates()[v.candidate]).len() && v.cost < u64::MAX
    &&& v.phase == Phase::Done && !b.outside() ==> v.tried.len() > 0
    &&& forall|i: int| 0 <= i < v.tried.len() ==> {
        &&& (#[trigger] v.tried[i]).cost < u64::MAX
        &&& v.tried[i].partition != PartitionType::PARTITION_INVALID
        &&& v.tried[i].partition == PartitionType::PARTITION_NONE ==> !b.must_split() && v.tried_modes[i].len() == 1
        &&& v.tried[i].partition != PartitionType::PARTITION_NONE ==> b.can_split()
    }
}

impl<M> BottomUp<M> {
    /// Where the search stands.
    pub open spec fn view(&self) -> SearchView<M> {
        SearchView {
            phase: self.phase,
            candidate: self.candidate as int,
            part: self.part as int,
            cost: self.cost,
            child: self.child@,
            tried: self.tried@,
            tried_modes: self.tried_modes@,
        }
    }

    /// The modes of the cheapest outcome so far, the quarters apart.
    pub open spec fn winners(&self) -> Seq<M> {
        winning_modes(self.tried@, self.tried_modes@, self.tried@.len() as int)
    }

    /// The search has come to a state: its phase and what was tried, and as long as a
    /// candidate is under trial all of it.
    pub open spec fn has_come_to(&self, t: SearchView<M>) -> bool {
        &&& self.phase == t.phase
        &&& self.tried@ == t.tried
        &&& self.tried_modes@ == t.tried_modes
        &&& t.phase == Phase::Signal || t.phase == Phase::Part ==> self.view() == t
    }

    /// The state is consistent: the best outcome is the cheapest of those that
    /// were tried, and the modes that are kept are its own.
    pub open spec fn wf(&self) -> bool {
        &&& searchable(self.block)
        &&& listed_types(self.candidates) == self.block.candidates()
        &&& self.candidate <= 3
        &&& self.best == best_of(self.view())
        &&& self.kept@ == self.winners()
        &&& view_ok(self.block, self.view())
        &&& self.phase == Phase::Signal || self.phase == Phase::Part ==> self.parts@ == parts_of(self.block, self.block.candidates()[self.candidate as int])
    }

    /// Everything but the progress of the search is the same.
    pub open spec fn same_search(&self, other: &BottomUp<M>) -> bool {
        &&& self.block == other.block
        &&& self.early_exit == other.early_exit
        &&& self.ref_cost == other.ref_cost
    }

    /// A search of a block that has to beat `ref_cost`.
    pub fn new(block: SearchBlock, early_exit: bool, ref_cost: u64) -> (r: BottomUp<M>)
        requires
            searchable(block),
        ensures
            r.wf(),
            r.block == block,
            r.early_exit == early_exit,
            r.ref_cost == ref_cost,
            r.phase == Phase::Start,
            r.tried@ =~= Seq::<Outcome>::empty(),
            r.tried_modes@ =~= Seq::<Seq<M>>::empty(),
    {
        let candidates: TypeList = block.partition_types();
        BottomUp {
            block,
            early_exit,
            ref_cost,
            candidates,
            phase: Phase::Start,
            candidate: 0,
            parts: Vec::new(),
            part: 0,
            cost: 0,
            best: None,
            child: Vec::new(),
            kept: Vec::new(),
            tried: Ghost(Seq::empty()),
            tried_modes: Ghost(Seq::empty()),
        }
    }

    /// The parts of a candidate that lie inside the tile.
    fn parts_inside(&self, p: PartitionType) -> (r: Vec<TileBlockOffset>)
        requires
            self.block.wf(),
            self.block.bsize.divisible(p),
        ensures
            r@ == parts_of(self.block, p),
    {
        let subsize: BlockSize = self.block.bsize.subsize(p);
        let list: OffsetList = get_sub_partitions(self.block.bo, p, subsize);
        let all: &[TileBlockOffset] = offsets_slice(&list);
        let mut out: Vec<TileBlockOffset> = Vec::new();
        let mut i: usize = 0;
        while i < all.len()
            invariant
                i <= all.len(),
                out@ =~= inside_parts(all@, self.block, i as int),
            decreases all.len() - i,
        {
            let o: TileBlockOffset = all[i];
            if !(o.x >= self.block.mi_width || o.y >= self.block.mi_height) {
                out.push(o);
            }
            i = i + 1;
        }
        out
    }

    /// Turns to candidate `k`.
    fn go_to(&mut self, k: usize) -> (r: SearchAction)
        requires
            searchable(old(self).block),
            listed_types(old(self).candidates) == old(self).block.candidates(),
            k <= 3,
            old(self).candidate <= 3,
            old(self).block.can_split(),
            !old(self).block.outside(),
            old(self).best == best_of(old(self).view()),
            old(self).kept@ == old(self).winners(),
            old(self).tried_modes@.len() == old(self).tried@.len(),
            has_modes(best_of(old(self).view())) ==> old(self).winners().len() > 0,
            old(self).tried@.len() > 0 || old(self).block.must_split() && k == 0,
            forall|i: int| 0 <= i < old(self).tried@.len() ==> {
                &&& (#[trigger] old(self).tried@[i]).cost < u64::MAX
                &&& old(self).tried@[i].partition != PartitionType::PARTITION_INVALID
                &&& old(self).tried@[i].partition == PartitionType::PARTITION_NONE ==> !old(self).block.must_split() && old(self).tried_modes@[i].len() == 1
            },
        ensures
            final(self).wf(),
            final(self).same_search(old(self)),
            ({
                let t = turn_to(old(self).block, old(self).view(), k as int);
                final(self).has_come_to(t.0) && r == t.1
            }),
    {
        let types: &[PartitionType] = types_slice(&self.candidates);
        if k < types.len() {
            let p: PartitionType = types[k];
            proof {
                lemma_candidates(self.block, k as int);
            }
            self.parts = self.parts_inside(p);
            self.phase = Phase::Signal;
            self.candidate = k;
            self.part = 0;
            self.child = Vec::new();
            assert(self.child@ =~= seq![]);
            SearchAction::Try { partition: p, signal: BlockSize::BLOCK_8X8.le(self.block.bsize) }
        } else {
            self.phase = Phase::Done;
            SearchAction::Stop
        }
    }

    /// Turns to part `k` of the candidate.
    fn go_to_part(&mut self, k: usize) -> (r: SearchAction)
        requires
            old(self).wf(),
            old(self).phase == Phase::Signal || old(self).phase == Phase::Part,
            old(self).cost < u64::MAX,
            k <= old(self).part + 1,
            old(self).phase == Phase::Signal ==> k == 0,
            k >= old(self).parts.len() && old(self).block.candidates()[old(self).candidate as int] != PartitionType::PARTITION_SPLIT
                && old(self).child.len() == 0 ==> old(self).cost >= cost_to_beat(old(self).view()),
        ensures
            final(self).wf(),
            final(self).same_search(old(self)),
            ({
                let t = turn_to_part(old(self).block, old(self).view(), k as int);
                final(self).has_come_to(t.0) && r == t.1
            }),
    {
        if k < self.parts.len() {
            let bound: u64 = match self.best {
                Some(b) => b.cost,
                None => u64::MAX,
            };
            self.phase = Phase::Part;
            self.part = k;
            SearchAction::CodePart { offset: self.parts[k], bound }
        } else {
            let p: PartitionType = types_slice(&self.candidates)[self.candidate];
            let o: Outcome = Outcome { partition: p, cost: self.cost };
            let ghost before = self.tried@;
            let ghost modes = self.tried_modes@;
            let ghost child = self.child@;
            proof {
                lemma_candidates(self.block, self.candidate as int);
                lemma_cheapest_push(before, o);
                lemma_winning_push(before, modes, o, child);
            }
            let better: bool = match self.best {
                Some(b) => self.cost < b.cost,
                None => true,
            };
            if better {
                self.best = Some(o);
                if p != PartitionType::PARTITION_SPLIT {
                    std::mem::swap(&mut self.kept, &mut self.child);
                }
            }
            self.tried = Ghost(before.push(o));
            self.tried_modes = Ghost(modes.push(child));
            proof {
                lemma_turn_ignores_child(self.block, self.view(), child, self.candidate + 1);
            }
            let next: usize = self.candidate + 1;
            self.go_to(next)
        }
    }

    /// Takes what has happened and says what to do next.
    pub fn step(&mut self, ev: SearchEvent<M>) -> (r: SearchAction)
        requires
            old(self).wf(),
            answers(old(self).block, old(self).early_exit, old(self).ref_cost, old(self).view(), ev),
        ensures
            final(self).wf(),
            final(self).same_search(old(self)),
            ({
                let t = search_next(old(self).block, old(self).early_exit, old(self).ref_cost, old(self).view(), ev);
                final(self).has_come_to(t.0) && r == t.1
            }),
    {
        match ev {
            SearchEvent::Begin => {
                if self.block.is_outside() {
                    self.phase = Phase::Done;
                    return SearchAction::Stop;
                }
                if !self.block.is_must_split() {
                    self.phase = Phase::Whole;
                    let signal: bool = BlockSize::BLOCK_8X8.le(self.block.bsize) && self.block.bsize.is_sqr();
                    let encode: bool = !self.block.is_can_split();
                    return SearchAction::CodeWhole { signal, encode };
                }
                self.go_to(0)
            },
            SearchEvent::WholeCoded { cost, modes } => {
                let o: Outcome = Outcome { partition: PartitionType::PARTITION_NONE, cost };
                let ghost before = self.tried@;
                let ghost others = self.tried_modes@;
                proof {
                    lemma_cheapest_push(before, o);
                    lemma_winning_push(before, others, o, seq![modes]);
                }
                self.best = Some(o);
                self.kept = Vec::new();
                self.kept.push(modes);
                self.tried = Ghost(before.push(o));
                self.tried_modes = Ghost(others.push(seq![modes]));
                assert(self.kept@ =~= seq![modes]);
                if self.block.is_can_split() {
                    self.go_to(0)
                } else {
                    self.phase = Phase::Done;
                    SearchAction::Stop
                }
            },
            SearchEvent::Signalled { cost } => {
                self.cost = cost;
                proof {
                    lemma_candidates(self.block, self.candidate as int);
                    lemma_first_part(self.block, self.block.candidates()[self.candidate as int]);
                }
                self.go_to_part(0)
            },
            SearchEvent::PartFailed => {
                assert(self.part < self.parts.len());
                let next: usize = self.part + 1;
                self.go_to_part(next)
            },
            SearchEvent::PartCoded { cost, part_modes } => {
                let best: u64 = match self.best {
                    Some(b) => b.cost,
                    None => u64::MAX,
                };
                assert(self.part < self.parts.len());
                self.cost = cost;
                if !self.block.is_must_split() && self.early_exit && (cost >= best || cost >= self.ref_cost) {
                    let next: usize = self.candidate + 1;
                    self.go_to(next)
                } else {
                    let p: PartitionType = types_slice(&self.candidates)[self.candidate];
                    if p != PartitionType::PARTITION_SPLIT {
                        if let Some(m) = part_modes {
                            self.child.push(m);
                        }
                    }
                    let next: usize = self.part + 1;
                    self.go_to_part(next)
                }
            },
        }
    }
}

/// One more outcome has its modes kept if it wins and is not the quarters.
proof fn lemma_winning_push<M>(h: Seq<Outcome>, m: Seq<Seq<M>>, o: Outcome, modes: Seq<M>)
    requires
        m.len() == h.len(),
    ensures
        winning_modes(h.push(o), m.push(modes), h.len() as int + 1) == if wins(o, cheapest(h, h.len() as int)) && o.partition
            != PartitionType::PARTITION_SPLIT {
            modes
        } else {
            winning_modes(h, m, h.len() as int)
        },
{
    lemma_cheapest_prefix(h, h.push(o), h.len() as int);
    lemma_winning_prefix(h, m, h.push(o), m.push(modes), h.len() as int);
}

proof fn lemma_winning_prefix<M>(h: Seq<Outcome>, m: Seq<Seq<M>>, g: Seq<Outcome>, l: Seq<Seq<M>>, n: int)
    requires
        n <= h.len(),
        n <= g.len(),
        n <= m.len(),
        n <= l.len(),
        forall|i: int| 0 <= i < n ==> h[i] == g[i],
        forall|i: int| 0 <= i < n ==> m[i] == l[i],
    ensures
        winning_modes(h, m, n) == winning_modes(g, l, n),
    decreases n,
{
    if n > 0 {
        lemma_winning_prefix(h, m, g, l, n - 1);
        lemma_cheapest_prefix(h, g, n - 1);
    }
}

/// The search turns to a candidate whatever the modes of the last one's parts.
proof fn lemma_turn_ignores_child<M>(b: SearchBlock, v: SearchView<M>, child: Seq<M>, k: int)
    ensures
        ({
            let t = turn_to(b, v, k);
            let u = turn_to(b, SearchView { child, ..v }, k);
            &&& t.1 == u.1
            &&& t.0.phase == u.0.phase
            &&& t.0.tried == u.0.tried
            &&& t.0.tried_modes == u.0.tried_modes
            &&& t.0.phase == Phase::Signal ==> t.0 == u.0
        }),
{
}

/// A block that cannot be divided was only tried whole.
proof fn lemma_only_whole<M>(s: &BottomUp<M>)
    requires
        s.wf(),
        s.phase == Phase::Done,
        !s.block.outside(),
        !s.block.can_split(),
    ensures
        s.best matches Some(o) && o.partition == PartitionType::PARTITION_NONE,
{
    law_winner_is_the_first_cheapest(s.tried@, s.tried@.len() as int);
    let o = s.best->0;
    let i = choose|i: int| 0 <= i < s.tried@.len() && #[trigger] s.tried@[i] == o;
    assert(s.tried@[i].partition == PartitionType::PARTITION_NONE);
}

/// Every candidate divides the block.
proof fn lemma_candidates(b: SearchBlock, k: int)
    requires
        b.wf(),
        !b.outside(),
        b.can_split(),
        0 <= k < b.candidates().len(),
    ensures
        b.bsize.divisible(b.candidates()[k]),
        b.candidates()[k] != PartitionType::PARTITION_INVALID,
        b.candidates()[k] != PartitionType::PARTITION_NONE,
        b.candidates().len() <= 3,
{
    let halves = b.bsize.within(b.non_square_max) || b.straddles();
    let s1: Seq<PartitionType> = if halves && b.has_cols() { seq![PartitionType::PARTITION_HORZ] } else { seq![] };
    let s2: Seq<PartitionType> = if halves && b.has_rows() && b.chroma_sampling != ChromaSampling::Cs422 { seq![PartitionType::PARTITION_VERT] } else { seq![] };
    let s3 = seq![PartitionType::PARTITION_SPLIT];
    assert(b.candidates() == s1 + s2 + s3);
    assert(b.bsize.wl() == b.bsize.hl());
    assert(b.bsize.wl() >= 3);
}

/// One more outcome is the cheapest only if it costs less.
proof fn lemma_cheapest_push(h: Seq<Outcome>, o: Outcome)
    ensures
        cheapest(h.push(o), h.len() as int + 1) == match cheapest(h, h.len() as int) {
            None => Some(o),
            Some(b) => if o.cost < b.cost { Some(o) } else { Some(b) },
        },
{
    lemma_cheapest_prefix(h, h.push(o), h.len() as int);
}

proof fn lemma_cheapest_prefix(h: Seq<Outcome>, g: Seq<Outcome>, n: int)
    requires
        n <= h.len(),
        n <= g.len(),
        forall|i: int| 0 <= i < n ==> h[i] == g[i],
    ensures
        cheapest(h, n) == cheapest(g, n),
    decreases n,
{
    if n > 0 {
        lemma_cheapest_prefix(h, g, n - 1);
    }
}

/// The partition that a search ended with, and what is left to do.
#[derive(Clone, Copy, Debug, PartialEq, Eq, Structural)]
pub struct SearchResult {
    pub partition: PartitionType,
    pub cost: u64,
    /// The size of the parts.
    pub subsize: BlockSize,
    /// Go back and encode the winning modes for good.
    pub recode: bool,
    /// Write the partition before they are encoded.
    pub signal: bool,
    /// Record the partition in the contexts of later blocks.
    pub update_context: bool,
    /// Hand the block's own modes to the enclosing search.
    pub keep_modes: bool,
}

/// A square block of at least 8x8 records its partition, unless it is divided into
/// quarters that record their own.
pub open spec fn records_partition(bsize: BlockSize, p: PartitionType) -> bool {
    &&& bsize.wl() == bsize.hl()
    &&& BlockSize::BLOCK_8X8.within(bsize)
    &&& bsize == BlockSize::BLOCK_8X8 || p != PartitionType::PARTITION_SPLIT
}

impl<M> BottomUp<M> {
    /// The winner. A block that could be divided but is not, or is divided in two,
    /// is encoded once more with the winning modes; from 8x8 on its partition is written
    /// first. A block that is not divided hands its one mode on.
    pub fn finish(&self) -> (r: SearchResult)
        requires
            self.wf(),
            self.phase == Phase::Done,
            !self.block.outside(),
        ensures
            best_of(self.view()) == Some(Outcome { partition: r.partition, cost: r.cost }),
            self.block.must_split() ==> r.partition != PartitionType::PARTITION_NONE,
            (r.subsize.wl(), r.subsize.hl()) == self.block.bsize.part_log2(r.partition),
            r.recode == (self.block.can_split() && r.partition != PartitionType::PARTITION_SPLIT),
            r.signal == (r.recode && BlockSize::BLOCK_8X8.within(self.block.bsize)),
            r.update_context == records_partition(self.block.bsize, r.partition),
            r.keep_modes == (r.partition == PartitionType::PARTITION_NONE),
            r.recode ==> self.winners().len() > 0,
            r.keep_modes ==> self.winners().len() == 1,
    {
        proof {
            law_winner_is_the_first_cheapest(self.tried@, self.tried@.len() as int);
            if has_modes(best_of(self.view())) {
                let n = self.tried@.len() as int;
                law_kept_modes_are_the_winners(self.tried@, self.tried_modes@, n);
                let k = choose|k: int| #[trigger] first_cheapest_at(self.tried@, n, k) && self.winners() == self.tried_modes@[k];
                assert(self.tried@[k] == best_of(self.view())->0);
            }
        }
        let o: Outcome = match self.best {
            Some(o) => o,
            None => Outcome { partition: PartitionType::PARTITION_INVALID, cost: u64::MAX },
        };
        proof {
            let i = choose|i: int| 0 <= i < self.tried@.len() && #[trigger] self.tried@[i] == o;
            assert(self.tried@[i].partition != PartitionType::PARTITION_INVALID);
        }
        let split: bool = o.partition == PartitionType::PARTITION_SPLIT;
        let whole: bool = o.partition == PartitionType::PARTITION_NONE;
        let b: BlockSize = self.block.bsize;
        let can_split: bool = self.block.is_can_split();
        let subsize: BlockSize = if can_split && !whole { self.divided(o.partition) } else { b };
        proof {
            if !can_split {
                lemma_only_whole(self);
            }
            crate::partition::lemma_block_size_by_log2(b, b);
        }
        SearchResult {
            partition: o.partition,
            cost: o.cost,
            subsize,
            recode: can_split && !split,
            signal: can_split && !split && BlockSize::BLOCK_8X8.le(b),
            update_context: b.is_sqr() && BlockSize::BLOCK_8X8.le(b) && (b == BlockSize::BLOCK_8X8 || !split),
            keep_modes: whole,
        }
    }

    /// The modes of the winner, in the order of its parts: those that the block is
    /// encoded with once more.
    pub fn modes(self) -> (r: Vec<M>)
        requires
            self.wf(),
        ensures
            r@ == self.winners(),
    {
        self.kept
    }

    /// The size of the parts of a block that can be divided.
    fn divided(&self, p: PartitionType) -> (r: BlockSize)
        requires
            self.wf(),
            !self.block.outside(),
            self.block.can_split(),
            p != PartitionType::PARTITION_INVALID,
        ensures
            (r.wl(), r.hl()) == self.block.bsize.part_log2(p),
    {
        proof {
            lemma_candidates(self.block, 0);
        }
        self.block.bsize.subsize(p)
    }
}

/// The winner of a search was tried, nothing that was tried costs less, and
/// whatever was tried before it costs more.
pub proof fn law_winner_is_the_first_cheapest(h: Seq<Outcome>, n: int)
    requires
        0 < n <= h.len(),
    ensures
        ({
            let b = cheapest(h, n);
            &&& b is Some
            &&& exists|k: int| 0 <= k < n && #[trigger] h[k] == b->0 && (forall|i: int| 0 <= i < k ==> (#[trigger] h[i]).cost > b->0.cost)
            &&& forall|i: int| 0 <= i < n ==> (#[trigger] h[i]).cost >= b->0.cost
        }),
    decreases n,
{
    if n > 1 {
        law_winner_is_the_first_cheapest(h, n - 1);
        let c = cheapest(h, n - 1)->0;
        if h[n - 1].cost < c.cost {
            assert(h[n - 1] == cheapest(h, n)->0);
        } else {
            let k = choose|k: int| 0 <= k < n - 1 && #[trigger] h[k] == c && (forall|i: int| 0 <= i < k ==> (#[trigger] h[i]).cost > c.cost);
            assert(h[k] == cheapest(h, n)->0);
        }
    } else {
        assert(cheapest(h, 0) is None);
        assert(h[0] == cheapest(h, n)->0);
    }
}

/// The outcome at `k` is the first of the cheapest among the first `n`.
pub open spec fn first_cheapest_at(h: Seq<Outcome>, n: int, k: int) -> bool {
    &&& 0 <= k < n
    &&& cheapest(h, n) == Some(h[k])
    &&& forall|i: int| 0 <= i < k ==> (#[trigger] h[i]).cost > h[k].cost
}

/// The modes that a search keeps are those of its winner, unless that is the quarters.
pub proof fn law_kept_modes_are_the_winners<M>(h: Seq<Outcome>, m: Seq<Seq<M>>, n: int)
    requires
        0 < n <= h.len(),
        m.len() == h.len(),
        has_modes(cheapest(h, n)),
    ensures
        exists|k: int| #[trigger] first_cheapest_at(h, n, k) && winning_modes(h, m, n) == m[k],
    decreases n,
{
    if wins(h[n - 1], cheapest(h, n - 1)) {
        if n > 1 {
            law_winner_is_the_first_cheapest(h, n - 1);
        }
        assert(first_cheapest_at(h, n, n - 1));
    } else {
        law_kept_modes_are_the_winners(h, m, n - 1);
        let k = choose|k: int| #[trigger] first_cheapest_at(h, n - 1, k) && winning_modes(h, m, n - 1) == m[k];
        assert(first_cheapest_at(h, n, k));
    }
}

/// The first part of any partition lies inside the tile.
proof fn lemma_first_part(b: SearchBlock, p: PartitionType)
    requires
        !b.outside(),
        p != PartitionType::PARTITION_INVALID,
    ensures
        parts_of(b, p).len() > 0,
{
    let l = b.bsize.part_log2(p);
    let all = part_offsets(b.bo, p, crate::transform::side_of(l.0) / 4, crate::transform::side_of(l.1) / 4);
    assert(all[0] == b.bo);
    lemma_first_inside(all, b, all.len() as int);
}

proof fn lemma_first_inside(s: Seq<TileBlockOffset>, b: SearchBlock, n: int)
    requires
        0 < n <= s.len(),
        s[0].x < b.mi_width && s[0].y < b.mi_height,
    ensures
        inside_parts(s, b, n).len() > 0,
    decreases n,
{
    if n > 1 {
        lemma_first_inside(s, b, n - 1);
    }
}

/// The variance of a block, and the threshold above which it is divided.
#[derive(Clone, Copy, Debug, PartialEq, Eq, Structural)]
pub struct NodeVariance {
    pub variance: i64,
    pub threshold: i64,
}

/// How a block is partitioned from the top down.
#[derive(Clone, Copy, Debug, PartialEq, Eq, Structural)]
pub enum TopdownChoice {
    /// The block lies outside the tile.
    Outside,
    /// The partition is known without a search.
    Decided(PartitionType),
    /// Ask whether the superblock can be skipped as a whole; if so it is coded
    /// whole with the modes found, else the partitions are searched.
    ProbeSkip,
    /// Search the whole block against its quarters.
    Search,
}

/// The partition of a block from the top down. `node` holds the block's variance
/// and the threshold, where the superblock is divided by variance: then a block
/// above 8x8 is divided if it exceeds the threshold.
pub open spec fn topdown_choice(b: SearchBlock, node: Option<NodeVariance>, modes_known: bool, sb_skip: bool) -> TopdownChoice {
    if b.outside() {
        TopdownChoice::Outside
    } else if b.must_split() {
        TopdownChoice::Decided(PartitionType::PARTITION_SPLIT)
    } else if node is Some {
        if b.bsize.exceeds(BlockSize::BLOCK_8X8) && node->0.variance > node->0.threshold {
            TopdownChoice::Decided(PartitionType::PARTITION_SPLIT)
        } else {
            TopdownChoice::Decided(PartitionType::PARTITION_NONE)
        }
    } else if b.can_split() {
        if b.bsize == BlockSize::BLOCK_64X64 && b.has_inter && !modes_known && sb_skip {
            TopdownChoice::ProbeSkip
        } else {
            TopdownChoice::Search
        }
    } else {
        TopdownChoice::Decided(PartitionType::PARTITION_NONE)
    }
}

/// How to partition a block from the top down.
pub fn choose_topdown(b: &SearchBlock, node: Option<NodeVariance>, modes_known: bool, sb_skip: bool) -> (r: TopdownChoice)
    requires
        b.wf(),
    ensures
        r == topdown_choice(*b, node, modes_known, sb_skip),
{
    if b.is_outside() {
        return TopdownChoice::Outside;
    }
    if b.is_must_split() {
        return TopdownChoice::Decided(PartitionType::PARTITION_SPLIT);
    }
    if let Some(n) = node {
        return if b.bsize.gt(BlockSize::BLOCK_8X8) && n.variance > n.threshold {
            TopdownChoice::Decided(PartitionType::PARTITION_SPLIT)
        } else {
            TopdownChoice::Decided(PartitionType::PARTITION_NONE)
        };
    }
    if b.is_can_split() {
        if b.bsize == BlockSize::BLOCK_64X64 && b.has_inter && !modes_known && sb_skip {
            TopdownChoice::ProbeSkip
        } else {
            TopdownChoice::Search
        }
    } else {
        TopdownChoice::Decided(PartitionType::PARTITION_NONE)
    }
}

/// What follows the choice of a partition from the top down.
pub struct TopdownPlan {
    /// Signal the partition.
    pub signal: bool,
    /// The size of the parts.
    pub subsize: BlockSize,
    /// Code the block as a whole; its modes are decided first where none are
    /// known.
    pub code_whole: bool,
    pub decide_modes: bool,
    /// Go on with each block whose modes are known.
    pub recurse_modes: bool,
    /// Go on with these parts.
    pub recurse_parts: OffsetList,
    /// Record the partition in the contexts of later blocks.
    pub update_context: bool,
}

/// What follows the choice of a partition from the top down: the whole block is
/// coded, with the modes that are known or newly decided; otherwise the search goes
/// on with the blocks whose modes are known, or else with all parts.
pub fn plan_topdown(b: &SearchBlock, partition: PartitionType, modes_known: bool) -> (r: TopdownPlan)
    requires
        b.wf(),
        b.bsize.divisible(partition),
    ensures
        r.signal == (b.bsize.wl() == b.bsize.hl() && BlockSize::BLOCK_8X8.within(b.bsize)),
        (r.subsize.wl(), r.subsize.hl()) == b.bsize.part_log2(partition),
        r.code_whole == (partition == PartitionType::PARTITION_NONE),
        r.decide_modes == (partition == PartitionType::PARTITION_NONE && !modes_known),
        r.recurse_modes == (partition != PartitionType::PARTITION_NONE && modes_known),
        listed_offsets(r.recurse_parts) == if partition != PartitionType::PARTITION_NONE && !modes_known {
            part_offsets(b.bo, partition, r.subsize.w() / 4, r.subsize.h() / 4)
        } else {
            seq![]
        },
        r.update_context == records_partition(b.bsize, partition),
{
    let whole: bool = partition == PartitionType::PARTITION_NONE;
    let subsize: BlockSize = b.bsize.subsize(partition);
    let recurse_parts: OffsetList = if !whole && !modes_known { get_sub_partitions(b.bo, partition, subsize) } else { new_offsets() };
    assert(whole || modes_known ==> listed_offsets(recurse_parts) =~= Seq::<TileBlockOffset>::empty());
    let square: bool = b.bsize.is_sqr();
    TopdownPlan {
        signal: BlockSize::BLOCK_8X8.le(b.bsize) && square,
        subsize,
        code_whole: whole,
        decide_modes: whole && !modes_known,
        recurse_modes: !whole && modes_known,
        recurse_parts,
        update_context: square && BlockSize::BLOCK_8X8.le(b.bsize) && (b.bsize == BlockSize::BLOCK_8X8 || partition != PartitionType::PARTITION_SPLIT),
    }
}

/// Dispatch by residual variance: which superblocks are divided by variance, and at
/// which threshold their blocks are.
#[derive(Clone, Copy, Debug, PartialEq, Eq, Structural)]
pub struct VarpartDispatch {
    pub thresh: i64,
    /// Superblocks at or above the threshold are routed, else those at or below.
    pub route_hi: bool,
    pub split_t: i64,
}

/// The threshold at which a block is divided: that of the dispatch, else the fixed
/// one, else none is ever divided.
pub open spec fn split_threshold(dispatch: Option<VarpartDispatch>, varpart: Option<i64>) -> i64 {
    match dispatch {
        Some(d) => d.split_t,
        None => match varpart {
            Some(t) => t,
            None => i64::MAX,
        },
    }
}

/// The threshold at which a block is divided.
pub fn varpart_split_threshold(dispatch: Option<VarpartDispatch>, varpart: Option<i64>) -> (r: i64)
    ensures
        r == split_threshold(dispatch, varpart),
{
    match dispatch {
        Some(d) => d.split_t,
        None => match varpart {
            Some(t) => t,
            None => i64::MAX,
        },
    }
}

/// Whether superblocks build their variance tree at all.
pub fn varpart_sb_active(dispatch: Option<VarpartDispatch>, varpart: Option<i64>) -> (r: bool)
    ensures
        r == (varpart is Some || dispatch is Some),
{
    varpart.is_some() || dispatch.is_some()
}

/// Whether a superblock with root variance `v64` is divided by variance: always,
/// unless the dispatch sends only one side of its threshold there.
pub fn varpart_route_sb(dispatch: Option<VarpartDispatch>, v64: i64) -> (r: bool)
    ensures
        r == routed(dispatch, v64 as int),
{
    match dispatch {
        None => true,
        Some(d) => if d.route_hi { v64 >= d.thresh } else { v64 <= d.thresh },
    }
}

/// Where a block's node lies in the variance tree of its superblock: its side and
/// its offset in samples.
pub fn variance_node(b: &SearchBlock) -> (r: (usize, usize, usize))
    ensures
        r.0 == b.bsize.w(),
        r.1 == (b.bo.x as int % 16) * 4,
        r.2 == (b.bo.y as int % 16) * 4,
        r.1 < 64,
        r.2 < 64,
{
    (b.bsize.width(), (b.bo.x % 16) * 4, (b.bo.y % 16) * 4)
}

/// The variance tree that a block is divided by.
#[derive(Clone, Copy, Debug, PartialEq, Eq, Structural)]
pub enum VarianceSource {
    /// None: the block is not divided by variance.
    Nothing,
    /// The tree that was built for the block itself.
    Own,
    /// The tree of the superblock that the block is a part of.
    Inherited,
}

/// A block builds a tree: it is a superblock, it comes with no tree, and division by
/// variance is switched on.
pub open spec fn builds_tree(b: SearchBlock, inherited: bool, dispatch: Option<VarpartDispatch>, varpart: Option<i64>) -> bool {
    !inherited && b.bsize == BlockSize::BLOCK_64X64 && (varpart is Some || dispatch is Some)
}

/// Whether the block builds a variance tree, given whether it comes with one.
pub fn builds_variance_tree(b: &SearchBlock, inherited: bool, dispatch: Option<VarpartDispatch>, varpart: Option<i64>) -> (r: bool)
    ensures
        r == builds_tree(*b, inherited, dispatch, varpart),
{
    !inherited && b.bsize == BlockSize::BLOCK_64X64 && varpart_sb_active(dispatch, varpart)
}

/// The superblock with root variance `v64` is divided by variance.
pub open spec fn routed(dispatch: Option<VarpartDispatch>, v64: int) -> bool {
    match dispatch {
        None => true,
        Some(d) => if d.route_hi { v64 >= d.thresh } else { v64 <= d.thresh },
    }
}

/// The tree that the block is divided by. `root` is the root variance of the tree that
/// the block built, where it built one: such a block is divided by its own tree or by
/// none; any other by the tree that it comes with.
pub fn variance_source(inherited: bool, dispatch: Option<VarpartDispatch>, root: Option<i64>) -> (r: VarianceSource)
    ensures
        r == match root {
            Some(v64) => if routed(dispatch, v64 as int) { VarianceSource::Own } else { VarianceSource::Nothing },
            None => if inherited { VarianceSource::Inherited } else { VarianceSource::Nothing },
        },
{
    match root {
        Some(v64) => if varpart_route_sb(dispatch, v64) { VarianceSource::Own } else { VarianceSource::Nothing },
        None => if inherited { VarianceSource::Inherited } else { VarianceSource::Nothing },
    }
}

/// A block's variance in the tree of its superblock, and the threshold above which the
/// block is divided. Up to 8x8 nothing is divided, and the variance is zero.
pub fn node_of(b: &SearchBlock, tree: &VarTree, dispatch: Option<VarpartDispatch>, varpart: Option<i64>) -> (r: NodeVariance)
    requires
        tree.wf(),
        b.bsize.wl() == b.bsize.hl(),
        b.bsize.within(BlockSize::BLOCK_64X64),
    ensures
        r.variance == if b.bsize.exceeds(BlockSize::BLOCK_8X8) {
            let n = tree.node(b.bsize.w(), (b.bo.x as int % 16) * 4, (b.bo.y as int % 16) * 4);
            variance_of(n.sum as int, n.sse as int, n.log2_count as nat)
        } else {
            0
        },
        r.threshold == split_threshold(dispatch, varpart),
{
    let (dim, ox, oy): (usize, usize, usize) = variance_node(b);
    let threshold: i64 = varpart_split_threshold(dispatch, varpart);
    let variance: i64 = if b.bsize.gt(BlockSize::BLOCK_8X8) { tree.node_variance(dim, ox, oy) } else { 0 };
    NodeVariance { variance, threshold }
}

/// What follows a probe for a skipped superblock: with modes found the block is not
/// divided and has these modes besides those it came with; else the partitions are
/// searched.
pub fn follow_probe<M>(known: Vec<M>, found: Option<M>) -> (r: (TopdownChoice, Vec<M>))
    ensures
        found matches Some(m) ==> r.0 == TopdownChoice::Decided(PartitionType::PARTITION_NONE) && r.1@ == known@.push(m),
        found is None ==> r.0 == TopdownChoice::Search && r.1@ == known@,
{
    let mut modes: Vec<M> = known;
    match found {
        Some(m) => {
            modes.push(m);
            (TopdownChoice::Decided(PartitionType::PARTITION_NONE), modes)
        },
        None => (TopdownChoice::Search, modes),
    }
}

/// How far a search has come: phases in order, then candidates and their parts.
pub open spec fn progress<M>(v: SearchView<M>) -> int {
    match v.phase {
        Phase::Start => 0,
        Phase::Whole => 1,
        Phase::Signal => 2 + 8 * v.candidate,
        Phase::Part => 3 + 8 * v.candidate + v.part,
        Phase::Done => 100,
    }
}

/// Every step brings a search further, so that it ends.
pub proof fn law_search_advances<M>(b: SearchBlock, early_exit: bool, ref_cost: u64, v: SearchView<M>, ev: SearchEvent<M>)
    requires
        searchable(b),
        view_ok(b, v),
        answers(b, early_exit, ref_cost, v, ev),
    ensures
        progress(v) < progress(search_next(b, early_exit, ref_cost, v, ev).0) <= 100,
{
    if !b.outside() && b.can_split() {
        lemma_candidates(b, 0);
        if 0 <= v.candidate < b.candidates().len() {
            let p = b.candidates()[v.candidate];
            let l = b.bsize.part_log2(p);
            let all = part_offsets(b.bo, p, crate::transform::side_of(l.0) / 4, crate::transform::side_of(l.1) / 4);
            lemma_inside_parts(all, b, all.len() as int);
        }
    }
}

proof fn lemma_inside_parts(s: Seq<TileBlockOffset>, b: SearchBlock, n: int)
    ensures
        0 <= n ==> inside_parts(s, b, n).len() <= n,
    decreases n,
{
    if n > 0 {
        lemma_inside_parts(s, b, n - 1);
    }
}

/// A half of a block reaches into the tile if the sample in its middle does; a block of a
/// single unit is its own half.
pub proof fn law_halves_start_in_the_middle(b: SearchBlock)
    ensures
        b.bsize.w() > 4 ==> (b.has_cols() <==> 4 * b.bo.x + b.bsize.w() / 2 < 4 * b.mi_width),
        b.bsize.w() > 4 ==> (b.has_rows() <==> 4 * b.bo.y + b.bsize.w() / 2 < 4 * b.mi_height),
        b.bsize.w() == 4 ==> (b.has_cols() <==> b.bo.x < b.mi_width) && (b.has_rows() <==> b.bo.y < b.mi_height),
        b.straddles() <==> 4 * b.bo.x + b.bsize.w() > 4 * b.mi_width || 4 * b.bo.y + b.bsize.h() > 4 * b.mi_height,
        b.outside() <==> 4 * b.bo.x >= 4 * b.mi_width || 4 * b.bo.y >= 4 * b.mi_height,
{
    crate::partition::law_blocks_have_their_names(b.bsize);
}

/// Which blocks are divided: only squares; those that are too large or of which no second
/// half is inside must be, those larger than the smallest size may be. With inter blocks
/// and chroma other than at half resolution in both directions none of 8x8 or less is.
pub proof fn law_only_large_squares_are_divided(b: SearchBlock)
    requires
        b.range.max.w() == b.range.max.h(),
        b.range.min.w() == b.range.min.h(),
    ensures
        b.bsize.w() != b.bsize.h() ==> !b.must_split() && !b.can_split(),
        b.bsize.w() == b.bsize.h() ==> {
            &&& b.must_split() <==> b.bsize.w() > b.range.max.w() || !b.has_cols() || !b.has_rows()
            &&& b.has_inter && b.chroma_sampling != ChromaSampling::Cs420 && b.bsize.w() <= 8 ==> !b.can_split()
            &&& !b.has_inter || b.chroma_sampling == ChromaSampling::Cs420 || b.bsize.w() > 8 ==> (b.can_split() <==> b.bsize.w() > b.range.min.w()
                || b.must_split())
        },
{
    crate::partition::law_blocks_have_their_names(b.bsize);
    crate::partition::law_blocks_have_their_names(b.range.max);
    crate::partition::law_blocks_have_their_names(b.range.min);
}

/// What is tried: quarters always, and last. Before them halves, one above the other and
/// then side by side, of blocks that are small enough or reach past the tile; each where
/// its direction is inside, and none side by side where only columns are subsampled.
pub proof fn law_quarters_are_tried_last(b: SearchBlock)
    ensures
        ({
            let c = b.candidates();
            let halves = b.bsize.within(b.non_square_max) || b.straddles();
            let horz = halves && b.has_cols();
            let vert = halves && b.has_rows() && b.chroma_sampling != ChromaSampling::Cs422;
            let n = if horz { 1int } else { 0 };
            &&& c.len() == n + (if vert { 1int } else { 0 }) + 1
            &&& c.last() == PartitionType::PARTITION_SPLIT
            &&& horz ==> c[0] == PartitionType::PARTITION_HORZ
            &&& vert ==> c[n] == PartitionType::PARTITION_VERT
        }),
{
}

/// The parts that are coded are those inside the tile, all of them and in their order.
pub proof fn law_parts_inside_are_coded(s: Seq<TileBlockOffset>, b: SearchBlock, n: int)
    requires
        0 <= n <= s.len(),
    ensures
        inside_parts(s, b, n) == s.take(n).filter(|o: TileBlockOffset| o.x < b.mi_width && o.y < b.mi_height),
    decreases n,
{
    reveal(Seq::filter);
    let p = |o: TileBlockOffset| o.x < b.mi_width && o.y < b.mi_height;
    if n > 0 {
        law_parts_inside_are_coded(s, b, n - 1);
        assert(s.take(n).drop_last() =~= s.take(n - 1));
        assert(s.take(n).last() == s[n - 1]);
    } else {
        assert(s.take(0) =~= Seq::empty());
    }
}

/// The cost to beat is the least of those that were tried, and beyond any where none was.
pub proof fn law_cost_to_beat_is_the_least<M>(v: SearchView<M>, i: int)
    requires
        0 <= i < v.tried.len(),
    ensures
        cost_to_beat(v) <= v.tried[i].cost,
        exists|k: int| 0 <= k < v.tried.len() && cost_to_beat(v) == (#[trigger] v.tried[k]).cost,
{
    law_winner_is_the_first_cheapest(v.tried, v.tried.len() as int);
    let b = cheapest(v.tried, v.tried.len() as int);
    let k = choose|k: int| 0 <= k < v.tried.len() && #[trigger] v.tried[k] == b->0;
    assert(cost_to_beat(v) == v.tried[k].cost);
}

/// A candidate is given up only where that is allowed and it cannot win: something that was
/// tried costs no more, or the enclosing search has something that does not. A block that
/// must be divided is never given up.
pub proof fn law_only_losers_are_given_up<M>(b: SearchBlock, early_exit: bool, ref_cost: u64, v: SearchView<M>, cost: u64)
    requires
        cost < u64::MAX,
    ensures
        b.must_split() || !early_exit ==> !exits(b, early_exit, ref_cost, v, cost),
        exits(b, early_exit, ref_cost, v, cost) ==> cost >= ref_cost || exists|k: int| 0 <= k < v.tried.len() && (#[trigger] v.tried[k]).cost <= cost,
        !b.must_split() && early_exit && !exits(b, early_exit, ref_cost, v, cost) ==> cost < ref_cost && forall|k: int|
            0 <= k < v.tried.len() ==> cost < (#[trigger] v.tried[k]).cost,
{
    if v.tried.len() > 0 {
        law_cost_to_beat_is_the_least(v, 0);
        assert forall|k: int| 0 <= k < v.tried.len() implies cost_to_beat(v) <= (#[trigger] v.tried[k]).cost by {
            law_cost_to_beat_is_the_least(v, k);
        }
    } else {
        assert(cheapest(v.tried, 0) is None);
    }
}

/// How a search starts and what it makes of a block that was coded whole.
pub proof fn law_whole_blocks_are_tried_first<M>(b: SearchBlock, early_exit: bool, ref_cost: u64, v: SearchView<M>, cost: u64, modes: M)
    ensures
        ({
            let (w, a) = search_next(b, early_exit, ref_cost, v, SearchEvent::Begin);
            let (x, c) = search_next(b, early_exit, ref_cost, v, SearchEvent::WholeCoded { cost, modes });
            let large = b.bsize.w() >= 8 && b.bsize.h() >= 8;
            &&& w.tried == v.tried && w.tried_modes == v.tried_modes
            &&& b.outside() ==> a == SearchAction::Stop && w.phase == Phase::Done
            &&& !b.outside() && !b.must_split() ==> a == (SearchAction::CodeWhole { signal: large && b.bsize.w() == b.bsize.h(), encode: !b.can_split() })
            &&& !b.outside() && b.must_split() ==> a == (SearchAction::Try { partition: b.candidates()[0], signal: large })
            &&& x.tried == v.tried.push(Outcome { partition: PartitionType::PARTITION_NONE, cost })
            &&& x.tried_modes == v.tried_modes.push(seq![modes])
            &&& !b.can_split() ==> c == SearchAction::Stop && x.phase == Phase::Done
            &&& b.can_split() ==> c == (SearchAction::Try { partition: b.candidates()[0], signal: large }) && x.candidate == 0
        }),
{
    crate::partition::law_blocks_have_their_names(b.bsize);
}

/// What a search makes of a part that was coded: a candidate that is given up leaves no
/// trace and the next follows; one that stays goes on to its next part under the bound of
/// the best so far, and after its last part it was tried, with its cost and, if it is not
/// the quarters, the modes of its parts in their order.
pub proof fn law_parts_are_coded_in_turn<M>(b: SearchBlock, early_exit: bool, ref_cost: u64, v: SearchView<M>, cost: u64, part: M)
    requires
        0 <= v.candidate < b.candidates().len(),
        0 <= v.part,
    ensures
        ({
            let p = b.candidates()[v.candidate];
            let parts = parts_of(b, p);
            let (w, a) = search_next(b, early_exit, ref_cost, v, SearchEvent::PartCoded { cost, part_modes: Some(part) });
            let (f, c) = search_next(b, early_exit, ref_cost, v, SearchEvent::<M>::PartFailed);
            let gone = exits(b, early_exit, ref_cost, v, cost);
            let child = if p == PartitionType::PARTITION_SPLIT { v.child } else { v.child.push(part) };
            let more = v.candidate + 1 < b.candidates().len();
            &&& gone ==> w.tried == v.tried && w.tried_modes == v.tried_modes && (more ==> w.candidate == v.candidate + 1 && w.phase == Phase::Signal)
            &&& !gone && v.part + 1 < parts.len() ==> {
                &&& a == (SearchAction::CodePart { offset: parts[v.part + 1], bound: cost_to_beat(v) })
                &&& w.tried == v.tried && w.child == child && w.cost == cost && w.part == v.part + 1 && w.candidate == v.candidate
            }
            &&& !gone && v.part + 1 >= parts.len() ==> {
                &&& w.tried == v.tried.push(Outcome { partition: p, cost })
                &&& w.tried_modes == v.tried_modes.push(child)
            }
            &&& v.part + 1 < parts.len() ==> c == (SearchAction::CodePart { offset: parts[v.part + 1], bound: cost_to_beat(v) }) && f.cost == v.cost && f.child
                == v.child
            &&& v.part + 1 >= parts.len() ==> f.tried == v.tried.push(Outcome { partition: p, cost: v.cost }) && f.tried_modes == v.tried_modes.push(v.child)
            &&& !more && (gone || v.part + 1 >= parts.len()) ==> a == SearchAction::Stop && w.phase == Phase::Done
            &&& more && (gone || v.part + 1 >= parts.len()) ==> a is Try && a->Try_partition == b.candidates()[v.candidate + 1] && w.child.len() == 0 && w.part == 0
        }),
{
}

/// A partition that was announced starts with its first part and the cost of announcing it.
pub proof fn law_announced_candidates_start<M>(b: SearchBlock, early_exit: bool, ref_cost: u64, v: SearchView<M>, cost: u64)
    requires
        0 <= v.candidate < b.candidates().len(),
        parts_of(b, b.candidates()[v.candidate]).len() > 0,
    ensures
        ({
            let (w, a) = search_next(b, early_exit, ref_cost, v, SearchEvent::<M>::Signalled { cost });
            &&& a == (SearchAction::CodePart { offset: parts_of(b, b.candidates()[v.candidate])[0], bound: cost_to_beat(v) })
            &&& w.phase == Phase::Part && w.part == 0 && w.cost == cost && w.candidate == v.candidate && w.tried == v.tried && w.child == v.child
        }),
{
}

/// Squares of 8x8 samples or more record their partition; above 8x8 quarters record theirs
/// instead.
pub proof fn law_squares_record_their_partition(bsize: BlockSize, p: PartitionType)
    ensures
        records_partition(bsize, p) <==> {
            &&& bsize.w() == bsize.h() && bsize.w() >= 8
            &&& bsize.w() > 8 ==> p != PartitionType::PARTITION_SPLIT
        },
{
    crate::partition::law_blocks_have_their_names(bsize);
    if bsize.w() == 8 && bsize.h() == 8 {
        crate::partition::lemma_block_size_by_log2(bsize, BlockSize::BLOCK_8X8);
    }
}

/// How blocks are divided from the top down. By variance a block is divided only above 8x8
/// and above the threshold; without it a block that can be divided is searched, and a whole
/// superblock of an inter frame is first asked whether it can be skipped.
pub proof fn law_topdown_choices(b: SearchBlock, node: Option<NodeVariance>, modes_known: bool, sb_skip: bool)
    ensures
        ({
            let c = topdown_choice(b, node, modes_known, sb_skip);
            let superblock = b.bsize.w() == 64 && b.bsize.h() == 64;
            &&& b.outside() <==> c == TopdownChoice::Outside
            &&& c == TopdownChoice::Decided(PartitionType::PARTITION_SPLIT) <==> !b.outside() && (b.must_split() || (node matches Some(n) && n.variance
                > n.threshold && b.bsize.exceeds(BlockSize::BLOCK_8X8)))
            &&& c == TopdownChoice::ProbeSkip <==> !b.outside() && !b.must_split() && node is None && b.can_split() && superblock && b.has_inter && !modes_known
                && sb_skip
            &&& c == TopdownChoice::Search <==> !b.outside() && !b.must_split() && node is None && b.can_split() && !(superblock && b.has_inter && !modes_known
                && sb_skip)
            &&& c is Decided && c != TopdownChoice::Decided(PartitionType::PARTITION_SPLIT) ==> c == TopdownChoice::Decided(PartitionType::PARTITION_NONE)
        }),
{
    crate::partition::law_blocks_have_their_names(b.bsize);
    if b.bsize.w() == 64 && b.bsize.h() == 64 {
        crate::partition::lemma_block_size_by_log2(b.bsize, BlockSize::BLOCK_64X64);
    }
}

/// A dispatch takes one side of its threshold, with the threshold itself, and its own limit
/// for dividing; without one every superblock is taken, and without any limit none is
/// divided.
pub proof fn law_dispatch_takes_one_side(d: VarpartDispatch, varpart: i64, v: int, w: int)
    ensures
        routed(None, v),
        routed(Some(d), d.thresh as int),
        v > d.thresh ==> routed(Some(d), v) == d.route_hi,
        v < d.thresh ==> routed(Some(d), v) == !d.route_hi,
        split_threshold(Some(d), Some(varpart)) == d.split_t,
        split_threshold(Some(d), None) == d.split_t,
        split_threshold(None, Some(varpart)) == varpart,
        split_threshold(None, None) == i64::MAX,
{
}

/// Only a superblock that comes with no tree builds one, and only if something divides by
/// variance.
pub proof fn law_superblocks_build_trees(b: SearchBlock, inherited: bool, dispatch: Option<VarpartDispatch>, varpart: Option<i64>)
    ensures
        inherited || b.bsize.w() != 64 || b.bsize.h() != 64 || (dispatch is None && varpart is None) ==> !builds_tree(b, inherited, dispatch, varpart),
        !inherited && b.bsize.w() == 64 && b.bsize.h() == 64 && (dispatch is Some || varpart is Some) ==> builds_tree(b, inherited, dispatch, varpart),
{
    crate::partition::law_blocks_have_their_names(b.bsize);
    if b.bsize.w() == 64 && b.bsize.h() == 64 {
        crate::partition::lemma_block_size_by_log2(b.bsize, BlockSize::BLOCK_64X64);
    }
}

} // verus!
