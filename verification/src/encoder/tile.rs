//! A tile: the order of its superblocks, what is decided for each before it is
//! coded, and when they are written out.

use std::collections::VecDeque;
use vstd::prelude::*;

use crate::context::block_unit::TileBlocks;
use crate::encoder::bitstream::{
    build_raw_tile_group, encode_frame, is_largest, joined_tiles, largest_tile, obu, packet_head, size_bytes, tile_group, tile_size_bytes, KeyFrameUnits, ObuType,
};
use crate::encoder::loop_filter::{all_ready, check_lf_queue, flushed, law_queue_empties_when_all_units_are_ready, LfAction, LfRun, LoopFilterSettings, LruProgress, SBSQueueEntry, SuperBlockOffset};
use crate::encoder::partition_search::VarpartDispatch;
use crate::mc::FilterMode;
use crate::partition::{ChromaSampling, TileBlockOffset};
use crate::plane::{Pixel, PlaneRegion};
use crate::util::imin;
use crate::varpart::{brute_variance, build_var_tree, residual, sb_root_variance, window_ok, VarTree};

verus! {

/// The numbers are in order.
pub open spec fn ascending(s: Seq<i64>) -> bool {
    forall|i: int, j: int| 0 <= i < j < s.len() ==> s[i] <= s[j]
}

/// `s` are the numbers of `v` in order.
pub open spec fn sorts(s: Seq<i64>, v: Seq<i64>) -> bool {
    ascending(s) && s.to_multiset() == v.to_multiset()
}

/// Merges two lists that are in order.
fn merge(a: &Vec<i64>, b: &Vec<i64>) -> (r: Vec<i64>)
    requires
        ascending(a@),
        ascending(b@),
    ensures
        ascending(r@),
        r@.to_multiset() == a@.to_multiset().add(b@.to_multiset()),
        r.len() == a.len() + b.len(),
{
    let mut out: Vec<i64> = Vec::new();
    let mut i: usize = 0;
    let mut j: usize = 0;
    proof {
        vstd::seq_lib::lemma_multiset_commutative(Seq::<i64>::empty(), Seq::<i64>::empty());
        assert(a@.subrange(0, 0) =~= Seq::<i64>::empty());
        assert(b@.subrange(0, 0) =~= Seq::<i64>::empty());
        a@.subrange(0, 0).to_multiset_ensures();
        assert(out@ =~= Seq::<i64>::empty());
        assert(out@.to_multiset() =~= a@.subrange(0, 0).to_multiset().add(b@.subrange(0, 0).to_multiset()));
    }
    while i < a.len() || j < b.len()
        invariant
            i <= a.len(),
            j <= b.len(),
            ascending(a@),
            ascending(b@),
            ascending(out@),
            out.len() == i + j,
            forall|k: int, m: int| 0 <= k < out.len() && i <= m < a.len() ==> out@[k] <= a@[m],
            forall|k: int, m: int| 0 <= k < out.len() && j <= m < b.len() ==> out@[k] <= b@[m],
            out@.to_multiset() == a@.subrange(0, i as int).to_multiset().add(b@.subrange(0, j as int).to_multiset()),
        decreases a.len() - i + b.len() - j,
    {
        let from_a: bool = j >= b.len() || (i < a.len() && a[i] <= b[j]);
        let ghost before = out@;
        if from_a {
            let x: i64 = a[i];
            out.push(x);
            proof {
                assert(a@.subrange(0, i + 1) =~= a@.subrange(0, i as int).push(x));
                before.to_multiset_ensures();
                a@.subrange(0, i as int).to_multiset_ensures();
                assert(out@.to_multiset() =~= a@.subrange(0, i + 1).to_multiset().add(b@.subrange(0, j as int).to_multiset()));
            }
            i = i + 1;
        } else {
            let x: i64 = b[j];
            out.push(x);
            proof {
                assert(b@.subrange(0, j + 1) =~= b@.subrange(0, j as int).push(x));
                before.to_multiset_ensures();
                b@.subrange(0, j as int).to_multiset_ensures();
                assert(out@.to_multiset() =~= a@.subrange(0, i as int).to_multiset().add(b@.subrange(0, j + 1).to_multiset()));
            }
            j = j + 1;
        }
    }
    proof {
        assert(a@.subrange(0, i as int) =~= a@);
        assert(b@.subrange(0, j as int) =~= b@);
    }
    out
}

/// The numbers `from..to` of a list in order.
fn sort_range(v: &Vec<i64>, from: usize, to: usize) -> (r: Vec<i64>)
    requires
        from <= to <= v.len(),
    ensures
        sorts(r@, v@.subrange(from as int, to as int)),
        r.len() == to - from,
    decreases to - from,
{
    if to - from <= 1 {
        let mut out: Vec<i64> = Vec::new();
        if from < to {
            out.push(v[from]);
        }
        assert(out@ =~= v@.subrange(from as int, to as int));
        out
    } else {
        let mid: usize = from + (to - from) / 2;
        let a: Vec<i64> = sort_range(v, from, mid);
        let b: Vec<i64> = sort_range(v, mid, to);
        let r: Vec<i64> = merge(&a, &b);
        proof {
            let x = v@.subrange(from as int, mid as int);
            let y = v@.subrange(mid as int, to as int);
            assert(v@.subrange(from as int, to as int) =~= x + y);
            vstd::seq_lib::lemma_multiset_commutative(x, y);
        }
        r
    }
}

/// The numbers of a list in order.
pub fn sorted(v: &Vec<i64>) -> (r: Vec<i64>)
    ensures
        sorts(r@, v@),
        r.len() == v.len(),
{
    let r: Vec<i64> = sort_range(v, 0, v.len());
    assert(v@.subrange(0, v.len() as int) =~= v@);
    r
}

/// A list has only one order.
proof fn lemma_sorted_once(s: Seq<i64>, t: Seq<i64>)
    requires
        ascending(s),
        ascending(t),
        s.to_multiset() == t.to_multiset(),
    ensures
        s == t,
{
    let leq = |a: i64, b: i64| a <= b;
    assert(vstd::relations::total_ordering(leq)) by {
        assert(vstd::relations::reflexive(leq));
        assert(vstd::relations::antisymmetric(leq));
        assert(vstd::relations::transitive(leq));
        assert(vstd::relations::strongly_connected(leq));
    }
    assert(vstd::relations::sorted_by(s, leq));
    assert(vstd::relations::sorted_by(t, leq));
    vstd::seq_lib::lemma_sorted_unique(s, t, leq);
}

/// `r` is the number of the given rank: the `rank`-th of the numbers in order, or
/// the last of them; without numbers the largest there is.
pub open spec fn has_rank(r: i64, v: Seq<i64>, rank: int) -> bool {
    if v.len() == 0 {
        r == i64::MAX
    } else {
        forall|s: Seq<i64>| #[trigger] sorts(s, v) ==> r == s[imin(rank, v.len() - 1)]
    }
}

/// The number of the given rank.
pub fn percentile(vars: &Vec<i64>, rank: usize) -> (r: i64)
    ensures
        has_rank(r, vars@, rank as int),
{
    let s: Vec<i64> = sorted(vars);
    let n: usize = s.len();
    if n == 0 {
        return i64::MAX;
    }
    let k: usize = if rank < n { rank } else { n - 1 };
    proof {
        assert forall|t: Seq<i64>| #[trigger] sorts(t, vars@) implies s@[k as int] == t[imin(rank as int, vars@.len() - 1)] by {
            lemma_sorted_once(s@, t);
        }
    }
    s[k]
}

/// The dispatch of a tile from the variances of its superblocks: the threshold is
/// the variance of the given rank; blocks are divided at a fixed threshold, or at
/// twice the squared quantizer index.
pub fn dispatch(vars: &Vec<i64>, rank: usize, route_hi: bool, varpart: Option<i64>, base_q_idx: u8) -> (r: VarpartDispatch)
    ensures
        has_rank(r.thresh, vars@, rank as int),
        r.route_hi == route_hi,
        r.split_t == match varpart {
            Some(t) => t as int,
            None => 2 * base_q_idx * base_q_idx,
        },
{
    let q: i64 = base_q_idx as i64;
    assert(0 <= q * q <= 255 * 255) by (nonlinear_arith)
        requires 0 <= q <= 255;
    assert(2 * q * q == 2 * (q * q)) by (nonlinear_arith);
    let split_t: i64 = match varpart {
        Some(t) => t,
        None => 2 * q * q,
    };
    VarpartDispatch { thresh: percentile(vars, rank), route_hi, split_t }
}

/// Which superblocks are searched more deeply.
#[derive(Clone, Copy, Debug, PartialEq, Eq, Structural)]
pub struct DeepCutoff {
    pub cutoff: i64,
    /// Superblocks at or below the cutoff, else those at or above.
    pub route_lo: bool,
}

/// What decides how the superblocks of a tile are searched.
#[derive(Clone, Copy, Debug, PartialEq, Eq, Structural)]
pub struct SuperblockPolicy {
    /// Every superblock is searched more deeply.
    pub deep_force: bool,
    pub deep: Option<DeepCutoff>,
    pub trellis: bool,
    /// Coefficients are optimized in every superblock.
    pub trellis_all: bool,
    /// Coefficients are optimized above this variance.
    pub trellis_t: i64,
    /// The search runs from the bottom up.
    pub encode_bottomup: bool,
    pub delta_q_present: bool,
}

/// What is decided for a superblock before it is coded.
#[derive(Clone, Copy, Debug, PartialEq, Eq, Structural)]
pub struct SuperblockPlan {
    pub sbo: SuperBlockOffset,
    pub bo: TileBlockOffset,
    /// The contexts to the left start anew with each row.
    pub reset_left: bool,
    pub code_deltas: bool,
    pub deepen: bool,
    pub trellis: bool,
    pub bottomup: bool,
}

/// A superblock of a given variance is searched more deeply.
pub open spec fn deepens(p: SuperblockPolicy, rv: i64) -> bool {
    p.deep_force || (match p.deep {
        Some(d) => if d.route_lo { rv <= d.cutoff } else { rv >= d.cutoff },
        None => false,
    })
}

/// The plan of the superblock at column `x`, row `y`: it reaches past the tile's edge,
/// where only the search from the bottom up can divide it.
pub open spec fn superblock_plan(p: SuperblockPolicy, mi_width: int, mi_height: int, x: int, y: int, rv: i64) -> SuperblockPlan {
    SuperblockPlan {
        sbo: SuperBlockOffset { x: x as usize, y: y as usize },
        bo: TileBlockOffset { x: (16 * x) as usize, y: (16 * y) as usize },
        reset_left: x == 0,
        code_deltas: p.delta_q_present,
        deepen: deepens(p, rv),
        trellis: p.trellis && (p.trellis_all || rv > p.trellis_t),
        bottomup: p.encode_bottomup || 16 * x + 16 > mi_width || 16 * y + 16 > mi_height,
    }
}

/// Where a superblock stands in the loop restoration of a plane: its unit, and
/// whether it is the unit's last; none where it takes no part in a unit.
#[derive(Clone, Copy, Debug, PartialEq, Eq, Structural)]
pub struct LruStatus {
    pub index: i32,
    pub last_sb: bool,
}

/// The coding of a tile.
pub struct TileEncoder {
    pub policy: SuperblockPolicy,
    pub filter: LoopFilterSettings,
    pub mi_width: usize,
    pub mi_height: usize,
    pub sb_width: usize,
    pub sb_height: usize,
    /// Loop filters are decided at the end of the tile.
    pub delayed: bool,
    /// The next superblock.
    pub sbx: usize,
    pub sby: usize,
    pub queue: VecDeque<SBSQueueEntry>,
    pub progress: LruProgress,
}

/// Where the coding of a tile stands.
pub struct TileView {
    pub sbx: int,
    pub sby: int,
    pub queue: Seq<SBSQueueEntry>,
    pub ready: Seq<i32>,
    pub rdoed: Seq<i32>,
    pub coded: Seq<i32>,
}

/// What is reported of a superblock: its variance before it is coded, and afterwards
/// whether it codes a filter index, and where it stands in the loop restoration.
pub struct SuperblockReport {
    pub rv: i64,
    pub cdef_coded: bool,
    pub lru: Seq<Option<LruStatus>>,
}

impl TileEncoder {
    /// Where the coding stands.
    pub open spec fn view(&self) -> TileView {
        TileView {
            sbx: self.sbx as int,
            sby: self.sby as int,
            queue: self.queue@,
            ready: self.progress.ready@,
            rdoed: self.progress.rdoed@,
            coded: self.progress.coded@,
        }
    }

    /// What comes after a superblock, and what is done: it is taken into the queue, and
    /// where the loop filters are not delayed and a unit is complete, the queue is
    /// written out as far as it is ready.
    pub open spec fn after_superblock(&self, v: TileView, cdef_coded: bool, lru: Seq<Option<LruStatus>>) -> (TileView, Seq<LfAction>) {
        let planes = self.filter.planes as int;
        let ready = ready_after(v.ready, lru, planes);
        let start = LfRun { actions: seq![], queue: v.queue.push(self.entry(v, cdef_coded, lru)), rdoed: v.rdoed, coded: v.coded };
        let end = if check_due(lru, planes) && !self.delayed { flushed(start, self.filter, ready, true) } else { start };
        let at = next_position(v.sbx, v.sby, self.sb_width as int);
        (TileView { sbx: at.0, sby: at.1, queue: end.queue, ready, rdoed: end.rdoed, coded: end.coded }, end.actions)
    }

    /// Positions stay in range.
    pub open spec fn wf(&self) -> bool {
        &&& self.filter.planes == 1 || self.filter.planes == 3
        &&& self.sb_width <= 0x10000
        &&& self.sb_height <= 0x10000
        &&& self.mi_width <= 0x100000
        &&& self.mi_height <= 0x100000
        &&& self.sby <= self.sb_height
        &&& self.sby < self.sb_height ==> self.sbx < self.sb_width
    }

    /// Every superblock has been coded.
    pub open spec fn is_done(&self) -> bool {
        self.sby >= self.sb_height
    }

    /// The settings of the tile are the same.
    pub open spec fn same_tile(&self, o: &TileEncoder) -> bool {
        &&& self.policy == o.policy
        &&& self.filter == o.filter
        &&& self.mi_width == o.mi_width
        &&& self.mi_height == o.mi_height
        &&& self.sb_width == o.sb_width
        &&& self.sb_height == o.sb_height
        &&& self.delayed == o.delayed
    }

    /// A tile before its first superblock.
    pub fn new(
        policy: SuperblockPolicy,
        chroma_sampling: ChromaSampling,
        enable_restoration: bool,
        allow_intrabc: bool,
        delayed: bool,
        mi_width: usize,
        mi_height: usize,
        sb_width: usize,
        sb_height: usize,
    ) -> (r: TileEncoder)
        requires
            0 < sb_width <= 0x10000,
            sb_height <= 0x10000,
            mi_width <= 0x100000,
            mi_height <= 0x100000,
        ensures
            r.wf(),
            r.policy == policy,
            r.filter == (LoopFilterSettings { planes: if chroma_sampling == ChromaSampling::Cs400 { 1 } else { 3 }, enable_restoration, allow_intrabc }),
            r.delayed == delayed,
            r.mi_width == mi_width,
            r.mi_height == mi_height,
            r.sb_width == sb_width,
            r.sb_height == sb_height,
            r.sbx == 0,
            r.sby == 0,
            r.queue@.len() == 0,
            forall|p: int| 0 <= p < 3 ==> #[trigger] r.progress.ready@[p] == -1,
            forall|p: int| 0 <= p < 3 ==> #[trigger] r.progress.rdoed@[p] == -1,
            forall|p: int| 0 <= p < 3 ==> #[trigger] r.progress.coded@[p] == -1,
    {
        let planes: usize = if chroma_sampling == ChromaSampling::Cs400 { 1 } else { 3 };
        TileEncoder {
            policy,
            filter: LoopFilterSettings { planes, enable_restoration, allow_intrabc },
            mi_width,
            mi_height,
            sb_width,
            sb_height,
            delayed,
            sbx: 0,
            sby: 0,
            queue: VecDeque::new(),
            progress: LruProgress::new(),
        }
    }

    /// What is decided for the next superblock, whose variance is `rv`; none where all
    /// are coded.
    pub fn begin_superblock(&self, rv: i64) -> (r: Option<SuperblockPlan>)
        requires
            self.wf(),
        ensures
            r is None <==> self.is_done(),
            r matches Some(p) ==> p == superblock_plan(self.policy, self.mi_width as int, self.mi_height as int, self.sbx as int, self.sby as int, rv),
    {
        if self.sby >= self.sb_height {
            return None;
        }
        let p: SuperblockPolicy = self.policy;
        let deepen: bool = p.deep_force || match p.deep {
            Some(d) => if d.route_lo { rv <= d.cutoff } else { rv >= d.cutoff },
            None => false,
        };
        let bo: TileBlockOffset = TileBlockOffset { x: 16 * self.sbx, y: 16 * self.sby };
        Some(SuperblockPlan {
            sbo: SuperBlockOffset { x: self.sbx, y: self.sby },
            bo,
            reset_left: self.sbx == 0,
            code_deltas: p.delta_q_present,
            deepen,
            trellis: p.trellis && (p.trellis_all || rv > p.trellis_t),
            bottomup: p.encode_bottomup || bo.x + 16 > self.mi_width || bo.y + 16 > self.mi_height,
        })
    }

    /// The queue entry of the superblock that was just coded.
    pub open spec fn entry(&self, v: TileView, cdef_coded: bool, lru: Seq<Option<LruStatus>>) -> SBSQueueEntry {
        SBSQueueEntry {
            sbo: SuperBlockOffset { x: v.sbx as usize, y: v.sby as usize },
            lru_index: [lru_of(lru, 0, self.filter.planes as int), lru_of(lru, 1, self.filter.planes as int), lru_of(lru, 2, self.filter.planes as int)],
            cdef_coded,
        }
    }

    /// Takes the superblock that was just coded into the queue and moves on. Where the
    /// loop filters are not delayed and a unit is complete, the queue is written out as
    /// far as it is ready.
    pub fn end_superblock(&mut self, cdef_coded: bool, lru: &[Option<LruStatus>; 3]) -> (r: Vec<LfAction>)
        requires
            old(self).wf(),
            !old(self).is_done(),
        ensures
            final(self).wf(),
            final(self).same_tile(old(self)),
            (final(self).view(), r@) == old(self).after_superblock(old(self).view(), cdef_coded, lru@),
    {
        let planes: usize = self.filter.planes;
        let mut index: [i32; 3] = [-1, -1, -1];
        let mut check: bool = false;
        let ghost ready0 = self.progress.ready@;
        let ghost e = self.entry(self.view(), cdef_coded, lru@);
        let mut p: usize = 0;
        while p < planes
            invariant
                p <= planes <= 3,
                self.wf(),
                self.filter.planes == planes,
                self.same_tile(old(self)),
                self.sbx == old(self).sbx,
                self.sby == old(self).sby,
                self.queue == old(self).queue,
                self.progress.rdoed == old(self).progress.rdoed,
                self.progress.coded == old(self).progress.coded,
                ready0 == old(self).progress.ready@,
                self.progress.ready@ =~= ready_after(ready0, lru@, p as int),
                check == check_due(lru@, p as int),
                forall|k: int| 0 <= k < 3 ==> #[trigger] index@[k] == lru_of(lru@, k, p as int),
            decreases planes - p,
        {
            match lru[p] {
                Some(s) => {
                    index[p] = s.index;
                    if s.last_sb {
                        self.progress.ready[p] = s.index;
                        check = true;
                    }
                },
                None => {
                    check = true;
                },
            }
            p = p + 1;
        }
        let entry: SBSQueueEntry = SBSQueueEntry { sbo: SuperBlockOffset { x: self.sbx, y: self.sby }, lru_index: index, cdef_coded };
        proof {
            assert(entry.lru_index@ =~= e.lru_index@);
            assert(entry.lru_index =~= e.lru_index);
        }
        self.queue.push_back(entry);
        if self.sbx + 1 < self.sb_width {
            self.sbx = self.sbx + 1;
        } else {
            self.sbx = 0;
            self.sby = self.sby + 1;
        }
        if check && !self.delayed {
            check_lf_queue(&self.filter, &mut self.queue, &mut self.progress, true)
        } else {
            Vec::new()
        }
    }

    /// Nothing stays in the queue at the end of the tile: with delayed loop filters every
    /// unit of a queued superblock is complete, and otherwise the queue is empty already.
    pub open spec fn can_empty(&self) -> bool {
        if self.delayed { all_ready(self.queue@, self.progress.ready@, self.filter.planes as int) } else { self.queue@.len() == 0 }
    }

    /// Writes out the superblocks that remain, where the loop filters were delayed. The
    /// reconstruction is deblocked first, for the decisions alone, where `levels`, found
    /// for the tile, filter luma at all; the decisions then do not deblock again. The
    /// queue is empty afterwards exactly where the tile could be emptied.
    pub fn finish(&mut self, levels: [u8; 4]) -> (r: (bool, Vec<LfAction>))
        requires
            old(self).wf(),
            old(self).is_done(),
        ensures
            r.0 == (old(self).delayed && (levels@[0] != 0 || levels@[1] != 0)),
            ({
                let start = LfRun { actions: seq![], queue: old(self).queue@, rdoed: old(self).progress.rdoed@, coded: old(self).progress.coded@ };
                let end = if old(self).delayed { flushed(start, old(self).filter, old(self).progress.ready@, false) } else { start };
                &&& r.1@ == end.actions
                &&& final(self).queue@ == end.queue
                &&& final(self).progress.rdoed@ == end.rdoed
                &&& final(self).progress.coded@ == end.coded
            }),
            final(self).queue@.len() == 0 <==> old(self).can_empty(),
            final(self).progress.ready == old(self).progress.ready,
            final(self).same_tile(old(self)),
            final(self).wf(),
            final(self).is_done(),
    {
        proof {
            let start = LfRun { actions: seq![], queue: self.queue@, rdoed: self.progress.rdoed@, coded: self.progress.coded@ };
            law_queue_empties_when_all_units_are_ready(start, self.filter, self.progress.ready@, false);
        }
        if !self.delayed {
            return (false, Vec::new());
        }
        let deblock: bool = levels[0] != 0 || levels[1] != 0;
        let actions: Vec<LfAction> = check_lf_queue(&self.filter, &mut self.queue, &mut self.progress, false);
        (deblock, actions)
    }
}

/// The unit that a superblock takes part in, as far as the first `n` planes go.
pub open spec fn lru_of(lru: Seq<Option<LruStatus>>, p: int, n: int) -> i32 {
    if p < n {
        match lru[p] {
            Some(s) => s.index,
            None => (-1) as i32,
        }
    } else {
        (-1) as i32
    }
}

/// The last complete units after a superblock.
pub open spec fn ready_after(ready: Seq<i32>, lru: Seq<Option<LruStatus>>, n: int) -> Seq<i32> {
    Seq::new(
        3,
        |p: int| match lru[p] {
            Some(s) if p < n && s.last_sb => s.index,
            _ => ready[p],
        },
    )
}

/// A unit is complete with the superblock, or it takes no part in one.
pub open spec fn check_due(lru: Seq<Option<LruStatus>>, n: int) -> bool {
    exists|p: int| 0 <= p < n && (match #[trigger] lru[p] {
        Some(s) => s.last_sb,
        None => true,
    })
}

/// The superblock after one, row by row.
pub open spec fn next_position(x: int, y: int, width: int) -> (int, int) {
    if x + 1 < width { (x + 1, y) } else { (0, y + 1) }
}

/// Superblocks are coded row by row, each once: each step raises the place in raster
/// order by one, from zero to the number of superblocks.
pub proof fn law_superblocks_in_raster_order(x: int, y: int, width: int, height: int)
    requires
        0 <= x < width,
        0 <= y < height,
    ensures
        ({
            let (nx, ny) = next_position(x, y, width);
            &&& ny * width + nx == y * width + x + 1
            &&& 0 <= nx < width
            &&& ny >= height <==> y * width + x + 1 == height * width
        }),
{
    assert((y + 1) * width == y * width + width) by (nonlinear_arith);
    assert(y + 1 < height ==> (y + 1) * width + width <= height * width) by (nonlinear_arith)
        requires 0 < width;
    assert(y + 1 <= height ==> (y + 1) * width <= height * width) by (nonlinear_arith)
        requires 0 < width;
}

/// Without delay the queue empties with the superblock that completes the last unit: where
/// the check is due and every unit of a queued superblock is complete, nothing stays.
pub proof fn law_last_superblock_empties_the_queue(t: &TileEncoder, v: TileView, cdef_coded: bool, lru: Seq<Option<LruStatus>>)
    requires
        !t.delayed,
        check_due(lru, t.filter.planes as int),
        all_ready(v.queue.push(t.entry(v, cdef_coded, lru)), ready_after(v.ready, lru, t.filter.planes as int), t.filter.planes as int),
    ensures
        t.after_superblock(v, cdef_coded, lru).0.queue.len() == 0,
{
    let start = LfRun { actions: seq![], queue: v.queue.push(t.entry(v, cdef_coded, lru)), rdoed: v.rdoed, coded: v.coded };
    law_queue_empties_when_all_units_are_ready(start, t.filter, ready_after(v.ready, lru, t.filter.planes as int), true);
}

/// A threshold of a given rank divides the numbers: of the numbers in order, those up
/// to the rank are at most the threshold, and those from it on at least.
pub proof fn law_rank_divides(r: i64, v: Seq<i64>, s: Seq<i64>, rank: int, i: int)
    requires
        0 <= rank < v.len(),
        has_rank(r, v, rank),
        sorts(s, v),
        0 <= i < s.len(),
    ensures
        s.len() == v.len(),
        i <= rank ==> s[i] <= r,
        i >= rank ==> s[i] >= r,
{
    s.to_multiset_ensures();
    v.to_multiset_ensures();
    assert(r == s[imin(rank, v.len() - 1)]);
}

/// The part of a superblock's side that lies inside the tile, in samples.
pub open spec fn visible_extent(mi: int, pos: int) -> int {
    imin((mi - pos) * 4, 64)
}

/// The part of a superblock that lies inside the tile, in samples.
fn visible_size(mi_width: usize, mi_height: usize, bo: TileBlockOffset) -> (r: (usize, usize))
    requires
        bo.x <= mi_width <= 0x100000,
        bo.y <= mi_height <= 0x100000,
    ensures
        r.0 == visible_extent(mi_width as int, bo.x as int),
        r.1 == visible_extent(mi_height as int, bo.y as int),
{
    let w: usize = (mi_width - bo.x) * 4;
    let h: usize = (mi_height - bo.y) * 4;
    (if w < 64 { w } else { 64 }, if h < 64 { h } else { 64 })
}

/// The variance tree of the superblock at `bo`: of its difference to the reference at
/// the same place, or of the source where there is no reference.
pub fn build_sb_var_tree<T: Pixel>(src: &PlaneRegion<'_, T>, refr: Option<&PlaneRegion<'_, T>>, mi_width: usize, mi_height: usize, bo: TileBlockOffset) -> (r: VarTree)
    requires
        bo.x <= mi_width <= 0x100000,
        bo.y <= mi_height <= 0x100000,
        window_ok(src, visible_extent(mi_width as int, bo.x as int), visible_extent(mi_height as int, bo.y as int)),
        refr matches Some(r) ==> window_ok(r, visible_extent(mi_width as int, bo.x as int), visible_extent(mi_height as int, bo.y as int)),
    ensures
        r.describes(
            |x: int, y: int| residual(src, refr, visible_extent(mi_width as int, bo.x as int), visible_extent(mi_height as int, bo.y as int), x, y),
        ),
        r.wf(),
{
    let (w, h): (usize, usize) = visible_size(mi_width, mi_height, bo);
    build_var_tree(src, refr, w, h)
}

/// The variance of the whole superblock at `bo`.
pub fn sb_root_var<T: Pixel>(src: &PlaneRegion<'_, T>, refr: Option<&PlaneRegion<'_, T>>, mi_width: usize, mi_height: usize, bo: TileBlockOffset) -> (r: i64)
    requires
        bo.x <= mi_width <= 0x100000,
        bo.y <= mi_height <= 0x100000,
        window_ok(src, visible_extent(mi_width as int, bo.x as int), visible_extent(mi_height as int, bo.y as int)),
        refr matches Some(r) ==> window_ok(r, visible_extent(mi_width as int, bo.x as int), visible_extent(mi_height as int, bo.y as int)),
    ensures
        r == brute_variance(
            |x: int, y: int| residual(src, refr, visible_extent(mi_width as int, bo.x as int), visible_extent(mi_height as int, bo.y as int), x, y),
            0,
            0,
            64,
            12,
        ),
        r >= 0,
{
    let (w, h): (usize, usize) = visible_size(mi_width, mi_height, bo);
    sb_root_variance(src, refr, w, h)
}

/// The class of a block by its width: 64, 32, 16, 8 and below.
pub open spec fn width_class(w_mi: int) -> int {
    if w_mi >= 16 {
        0
    } else if w_mi == 8 {
        1
    } else if w_mi == 4 {
        2
    } else if w_mi == 2 {
        3
    } else {
        4
    }
}

/// How many of the first `n` units of a superblock, row by row, lie inside the tile in
/// a block of the class.
pub open spec fn class_area(blocks: &TileBlocks, bo: TileBlockOffset, class: int, n: int) -> int
    decreases n,
{
    if n <= 0 {
        0
    } else {
        let x = bo.x + (n - 1) % 16;
        let y = bo.y + (n - 1) / 16;
        let hit = x < blocks.cols && y < blocks.rows && width_class(blocks.block(x, y).bsize.w() / 4) == class;
        class_area(blocks, bo, class, n - 1) + if hit { 1int } else { 0 }
    }
}

/// How much of a superblock is covered by blocks of each width class.
pub fn sb_class_areas(blocks: &TileBlocks, bo: TileBlockOffset) -> (r: [u32; 5])
    requires
        blocks.wf(),
        bo.x <= usize::MAX - 16,
        bo.y <= usize::MAX - 16,
    ensures
        forall|c: int| 0 <= c < 5 ==> #[trigger] r@[c] == class_area(blocks, bo, c, 256),
{
    let mut area: [u32; 5] = [0; 5];
    let mut k: usize = 0;
    while k < 256
        invariant
            k <= 256,
            blocks.wf(),
            bo.x <= usize::MAX - 16,
            bo.y <= usize::MAX - 16,
            forall|c: int| 0 <= c < 5 ==> #[trigger] area@[c] == class_area(blocks, bo, c, k as int),
            forall|c: int| 0 <= c < 5 ==> #[trigger] area@[c] <= k,
        decreases 256 - k,
    {
        let x: usize = bo.x + k % 16;
        let y: usize = bo.y + k / 16;
        if x < blocks.cols && y < blocks.rows {
            let w: usize = blocks.at(x, y).bsize.width_mi();
            let c: usize = if w >= 16 {
                0
            } else if w == 8 {
                1
            } else if w == 4 {
                2
            } else if w == 2 {
                3
            } else {
                4
            };
            assert(area@[c as int] <= k);
            area[c] = area[c] + 1;
        }
        k = k + 1;
    }
    area
}

/// Every block of a superblock inside the tile is skipped.
pub open spec fn all_skipped(blocks: &TileBlocks, bo: TileBlockOffset) -> bool {
    forall|x: int, y: int| bo.x <= x < bo.x + 16 && x < blocks.cols && bo.y <= y < bo.y + 16 && y < blocks.rows ==> (#[trigger] blocks.block(x, y)).skip
}

/// Whether every block of a superblock inside the tile is skipped.
pub fn sb_all_skipped(blocks: &TileBlocks, bo: TileBlockOffset) -> (r: bool)
    requires
        blocks.wf(),
        bo.x <= usize::MAX - 16,
        bo.y <= usize::MAX - 16,
    ensures
        r == all_skipped(blocks, bo),
{
    let mut dy: usize = 0;
    while dy < 16
        invariant
            dy <= 16,
            blocks.wf(),
            bo.x <= usize::MAX - 16,
            bo.y <= usize::MAX - 16,
            forall|x: int, y: int| bo.x <= x < bo.x + 16 && x < blocks.cols && bo.y <= y < bo.y + dy && y < blocks.rows ==> (#[trigger] blocks.block(x, y)).skip,
        decreases 16 - dy,
    {
        let y: usize = bo.y + dy;
        let mut dx: usize = 0;
        while dx < 16
            invariant
                dx <= 16,
                dy < 16,
                y == bo.y + dy,
                blocks.wf(),
                bo.x <= usize::MAX - 16,
                bo.y <= usize::MAX - 16,
                forall|x: int, j: int| bo.x <= x < bo.x + 16 && x < blocks.cols && bo.y <= j < blocks.rows && (j < y || j == y && x < bo.x + dx) ==>
                    (#[trigger] blocks.block(x, j)).skip,
            decreases 16 - dx,
        {
            let x: usize = bo.x + dx;
            if x < blocks.cols && y < blocks.rows {
                if !blocks.at(x, y).skip {
                    assert(!blocks.block(x as int, y as int).skip);
                    return false;
                }
            }
            dx = dx + 1;
        }
        dy = dy + 1;
    }
    true
}

/// The superblocks on which filters are compared, up to the `n`-th cell of the coarse
/// grid: every second one across and down, if it lies inside the tile.
pub open spec fn probe_grid(cols: int, mi_width: int, mi_height: int, n: int) -> Seq<TileBlockOffset>
    decreases n,
{
    if n <= 0 {
        seq![]
    } else {
        let x = 32 * ((n - 1) % cols);
        let y = 32 * ((n - 1) / cols);
        if x + 16 > mi_width || y + 16 > mi_height {
            probe_grid(cols, mi_width, mi_height, n - 1)
        } else {
            probe_grid(cols, mi_width, mi_height, n - 1).push(TileBlockOffset { x: x as usize, y: y as usize })
        }
    }
}

/// The superblocks on which filters are compared.
pub fn filter_probes(sb_width: usize, sb_height: usize, mi_width: usize, mi_height: usize) -> (r: Vec<TileBlockOffset>)
    requires
        0 < sb_width <= 0x10000,
        sb_height <= 0x10000,
        mi_width <= 0x100000,
        mi_height <= 0x100000,
    ensures
        r@ == probe_grid(
            (sb_width as int + 1) / 2,
            mi_width as int,
            mi_height as int,
            ((sb_height as int + 1) / 2) * ((sb_width as int + 1) / 2),
        ),
{
    let cols: usize = (sb_width + 1) / 2;
    let rows: usize = (sb_height + 1) / 2;
    let mut out: Vec<TileBlockOffset> = Vec::new();
    let mut j: usize = 0;
    assert(0 * cols == 0) by (nonlinear_arith);
    while j < rows
        invariant
            j <= rows <= 0x10000,
            1 <= cols <= 0x10000,
            mi_width <= 0x100000,
            mi_height <= 0x100000,
            out@ =~= probe_grid(cols as int, mi_width as int, mi_height as int, j * cols),
        decreases rows - j,
    {
        let mut i: usize = 0;
        while i < cols
            invariant
                i <= cols,
                j < rows <= 0x10000,
                1 <= cols <= 0x10000,
                mi_width <= 0x100000,
                mi_height <= 0x100000,
                out@ =~= probe_grid(cols as int, mi_width as int, mi_height as int, j * cols + i),
            decreases cols - i,
        {
            proof {
                vstd::arithmetic::div_mod::lemma_fundamental_div_mod_converse(j * cols + i, cols as int, j as int, i as int);
                assert(j * cols + i >= 0) by (nonlinear_arith)
                    requires 0 <= j, 0 <= cols, 0 <= i;
            }
            let x: usize = 32 * i;
            let y: usize = 32 * j;
            if !(x + 16 > mi_width || y + 16 > mi_height) {
                out.push(TileBlockOffset { x, y });
            }
            i = i + 1;
        }
        assert(j * cols + cols == (j + 1) * cols) by (nonlinear_arith);
        j = j + 1;
    }
    out
}

/// The sum of one side of the first `n` comparisons.
pub open spec fn satd_total(s: Seq<(u32, u32)>, sharp: bool, n: int) -> int
    decreases n,
{
    if n <= 0 { 0 } else { satd_total(s, sharp, n - 1) + if sharp { s[n - 1].1 as int } else { s[n - 1].0 as int } }
}

/// The filter of an inter frame: the sharp one where it leaves a smaller residual than
/// the regular one, summed over the compared superblocks; the frame's own where there
/// is nothing to predict from. `satd` holds both residuals of each, the regular first.
pub fn pick_frame_filter(has_last: bool, default_filter: FilterMode, satd: &[(u32, u32)]) -> (r: FilterMode)
    requires
        satd.len() <= 0x1_0000_0000,
    ensures
        r == if !has_last {
            default_filter
        } else if satd_total(satd@, true, satd.len() as int) < satd_total(satd@, false, satd.len() as int) {
            FilterMode::SHARP
        } else {
            FilterMode::REGULAR
        },
{
    if !has_last {
        return default_filter;
    }
    let mut regular: u64 = 0;
    let mut sharp: u64 = 0;
    let mut i: usize = 0;
    while i < satd.len()
        invariant
            i <= satd.len() <= 0x1_0000_0000,
            regular == satd_total(satd@, false, i as int),
            sharp == satd_total(satd@, true, i as int),
            regular <= 0xffff_ffff * i,
            sharp <= 0xffff_ffff * i,
        decreases satd.len() - i,
    {
        let (a, b): (u32, u32) = satd[i];
        regular = regular + a as u64;
        sharp = sharp + b as u64;
        i = i + 1;
    }
    if sharp < regular { FilterMode::SHARP } else { FilterMode::REGULAR }
}

/// The filter is chosen adaptively: it is wanted, the frame is predicted from others,
/// and a single tile both chooses and uses it.
pub fn picks_filter(afilter: bool, has_inter: bool, tile_cols: usize, tile_rows: usize) -> (r: bool)
    requires
        tile_cols * tile_rows <= usize::MAX,
    ensures
        r == (afilter && has_inter && tile_cols * tile_rows == 1),
{
    afilter && has_inter && tile_cols * tile_rows == 1
}

/// A filter of the reconstructed frame.
#[derive(Clone, Copy, Debug, PartialEq, Eq, Structural)]
pub enum PostFilter {
    Deblock,
    /// Keep a copy of the deblocked frame for what follows.
    KeepDeblocked,
    Cdef,
    Restoration,
}

/// The filters of a frame once its tiles are coded, in order.
pub open spec fn post_filters(levels: Seq<u8>, enable_cdef: bool, enable_restoration: bool) -> Seq<PostFilter> {
    (if levels[0] != 0 || levels[1] != 0 { seq![PostFilter::Deblock] } else { seq![] })
        + (if enable_cdef || enable_restoration { seq![PostFilter::KeepDeblocked] } else { seq![] })
        + (if enable_cdef { seq![PostFilter::Cdef] } else { seq![] })
        + (if enable_restoration { seq![PostFilter::Restoration] } else { seq![] })
}

/// The filters of a frame once its tiles are coded, in order.
pub fn plan_post_filters(levels: [u8; 4], enable_cdef: bool, enable_restoration: bool) -> (r: Vec<PostFilter>)
    ensures
        r@ == post_filters(levels@, enable_cdef, enable_restoration),
{
    let mut out: Vec<PostFilter> = Vec::new();
    if levels[0] != 0 || levels[1] != 0 {
        out.push(PostFilter::Deblock);
    }
    if enable_cdef || enable_restoration {
        out.push(PostFilter::KeepDeblocked);
    }
    if enable_cdef {
        out.push(PostFilter::Cdef);
    }
    if enable_restoration {
        out.push(PostFilter::Restoration);
    }
    assert(out@ =~= post_filters(levels@, enable_cdef, enable_restoration));
    out
}

/// Which tile's probabilities later frames start from, and in how many bytes tile sizes
/// are given.
#[derive(Clone, Copy, Debug, PartialEq, Eq, Structural)]
pub struct TileGroupResult {
    /// None where probabilities are not kept.
    pub context_update_tile_id: Option<usize>,
    pub max_tile_size_bytes: u32,
}

/// What a frame keeps of its coded tiles, and the tiles put together.
pub fn encode_tile_group(cols: usize, rows: usize, raw_tiles: &[Vec<u8>], disable_frame_end_update_cdf: bool) -> (r: (TileGroupResult, Vec<u8>))
    requires
        cols * rows <= usize::MAX,
        raw_tiles.len() > 0,
        forall|i: int| 0 <= i < raw_tiles.len() - 1 ==> (#[trigger] raw_tiles@[i]).len() >= 1,
    ensures
        is_group(r.0, r.1@, raw_tiles@, cols * rows > 1, disable_frame_end_update_cdf),
{
    let (idx_max, max_len): (usize, usize) = largest_tile(raw_tiles);
    let bytes: u32 = tile_size_bytes(max_len);
    let context_update_tile_id: Option<usize> = if disable_frame_end_update_cdf { None } else { Some(idx_max) };
    let group: Vec<u8> = build_raw_tile_group(cols, rows, raw_tiles, bytes);
    proof {
        let i = idx_max as int;
        assert(is_largest(raw_tiles@, i) && bytes == size_bytes(raw_tiles@[i].len() as nat));
    }
    (TileGroupResult { context_update_tile_id, max_tile_size_bytes: bytes }, group)
}

/// `r` and `group` are what a frame makes of its tiles: where probabilities are kept, they
/// are those of the largest tile; sizes are given in as many bytes as the largest needs;
/// and the tiles follow one another.
pub open spec fn is_group(r: TileGroupResult, group: Seq<u8>, tiles: Seq<Vec<u8>>, several: bool, disable_frame_end_update_cdf: bool) -> bool {
    &&& match r.context_update_tile_id {
        Some(i) => !disable_frame_end_update_cdf && is_largest(tiles, i as int),
        None => disable_frame_end_update_cdf,
    }
    &&& exists|i: int| is_largest(tiles, i) && r.max_tile_size_bytes == #[trigger] size_bytes(tiles[i].len() as nat)
    &&& group == tile_group(tiles, several, r.max_tile_size_bytes as nat)
}

/// The coding of a tile goes from one state to the next by the report of the `k`-th
/// superblock, with these actions.
pub open spec fn goes_on(t: TileEncoder, states: Seq<TileView>, actions: Seq<Seq<LfAction>>, reports: Seq<SuperblockReport>, k: int) -> bool {
    (states[k + 1], actions[k]) == t.after_superblock(states[k], reports[k].cdef_coded, reports[k].lru)
}

/// The coding of a tile is determined by what is reported of its superblocks: two runs
/// with the same settings and the same reports go through the same states, plan every
/// superblock alike and do the same after each.
pub proof fn law_equal_reports_give_equal_tiles(
    t: TileEncoder,
    u: TileEncoder,
    a: Seq<TileView>,
    b: Seq<TileView>,
    done_a: Seq<Seq<LfAction>>,
    done_b: Seq<Seq<LfAction>>,
    reports: Seq<SuperblockReport>,
    k: int,
)
    requires
        t.same_tile(&u),
        a[0] == b[0],
        0 <= k <= reports.len(),
        forall|i: int| 0 <= i < reports.len() ==> #[trigger] goes_on(t, a, done_a, reports, i),
        forall|i: int| 0 <= i < reports.len() ==> #[trigger] goes_on(u, b, done_b, reports, i),
    ensures
        a[k] == b[k],
        k < reports.len() ==> done_a[k] == done_b[k],
        k < reports.len() ==> superblock_plan(t.policy, t.mi_width as int, t.mi_height as int, a[k].sbx, a[k].sby, reports[k].rv) == superblock_plan(
            u.policy,
            u.mi_width as int,
            u.mi_height as int,
            b[k].sbx,
            b[k].sby,
            reports[k].rv,
        ),
    decreases k,
{
    if k > 0 {
        law_equal_reports_give_equal_tiles(t, u, a, b, done_a, done_b, reports, k - 1);
        assert(goes_on(t, a, done_a, reports, k - 1));
        assert(goes_on(u, b, done_b, reports, k - 1));
    }
    if k < reports.len() {
        assert(goes_on(t, a, done_a, reports, k));
        assert(goes_on(u, b, done_b, reports, k));
    }
}

/// The packet of a frame whose tiles make up `group`: `header` gives the frame header,
/// which depends on the tiles only through what the frame keeps of them.
pub open spec fn frame_packet(
    key: Option<KeyFrameUnits>,
    metadata: Seq<Vec<u8>>,
    header: spec_fn(TileGroupResult) -> Seq<u8>,
    r: TileGroupResult,
    group: Seq<u8>,
) -> Seq<u8> {
    packet_head(key, metadata) + obu(ObuType::OBU_FRAME, header(r) + group)
}

/// The packet of a frame is determined by what its tiles are coded to: two runs whose
/// tiles hold the same bytes, tile by tile, keep the same of them and put out the same
/// packet, whichever threads coded the tiles and in whichever order they ended.
pub proof fn law_equal_tiles_give_equal_packets(
    code: spec_fn(int) -> Seq<u8>,
    a: Seq<Vec<u8>>,
    b: Seq<Vec<u8>>,
    ra: TileGroupResult,
    rb: TileGroupResult,
    ga: Seq<u8>,
    gb: Seq<u8>,
    several: bool,
    disable_frame_end_update_cdf: bool,
    key: Option<KeyFrameUnits>,
    metadata: Seq<Vec<u8>>,
    header: spec_fn(TileGroupResult) -> Seq<u8>,
)
    requires
        a.len() == b.len(),
        forall|i: int| 0 <= i < a.len() ==> (#[trigger] a[i])@ == code(i),
        forall|i: int| 0 <= i < b.len() ==> (#[trigger] b[i])@ == code(i),
        is_group(ra, ga, a, several, disable_frame_end_update_cdf),
        is_group(rb, gb, b, several, disable_frame_end_update_cdf),
    ensures
        ra == rb,
        ga == gb,
        frame_packet(key, metadata, header, ra, ga) == frame_packet(key, metadata, header, rb, gb),
{
    assert forall|i: int| 0 <= i < a.len() implies (#[trigger] a[i])@ == b[i]@ by {
        assert(b[i]@ == code(i));
    }
    let i = choose|i: int| is_largest(a, i) && ra.max_tile_size_bytes == #[trigger] size_bytes(a[i].len() as nat);
    let j = choose|j: int| is_largest(b, j) && rb.max_tile_size_bytes == #[trigger] size_bytes(b[j].len() as nat);
    lemma_same_largest(a, b, i, j);
    if ra.context_update_tile_id is Some {
        lemma_same_largest(a, b, ra.context_update_tile_id->0 as int, rb.context_update_tile_id->0 as int);
    }
    lemma_same_join(a, b, ra.max_tile_size_bytes as nat, 0);
}

/// `packet` is that of a frame with these tiles, whose header is written by `header` from
/// what the frame keeps of them.
pub open spec fn is_frame_packet<H: Fn(TileGroupResult) -> Vec<u8>>(
    packet: Seq<u8>,
    tiles: Seq<Vec<u8>>,
    several: bool,
    disable_frame_end_update_cdf: bool,
    key: Option<KeyFrameUnits>,
    metadata: Seq<Vec<u8>>,
    header: H,
) -> bool {
    exists|r: TileGroupResult, group: Seq<u8>, h: Vec<u8>| {
        &&& #[trigger] is_group(r, group, tiles, several, disable_frame_end_update_cdf)
        &&& #[trigger] call_ensures(header, (r,), h)
        &&& packet == packet_head(key, metadata) + obu(ObuType::OBU_FRAME, h@ + group)
    }
}

/// The tiles put together are no longer than a vector can be.
pub open spec fn group_fits(tiles: Seq<Vec<u8>>, several: bool, disable_frame_end_update_cdf: bool) -> bool {
    forall|k: TileGroupResult, g: Seq<u8>| #[trigger] is_group(k, g, tiles, several, disable_frame_end_update_cdf) ==> g.len() <= isize::MAX
}

/// Puts the coded tiles of a frame together, has the header written, and makes the packet
/// of the frame.
pub fn encode_frame_of_tiles<H: Fn(TileGroupResult) -> Vec<u8>>(
    cols: usize,
    rows: usize,
    raw_tiles: &[Vec<u8>],
    disable_frame_end_update_cdf: bool,
    key: &Option<KeyFrameUnits>,
    metadata: &[Vec<u8>],
    header: &H,
) -> (r: Vec<u8>)
    requires
        cols * rows <= usize::MAX,
        raw_tiles.len() > 0,
        forall|i: int| 0 <= i < raw_tiles.len() - 1 ==> (#[trigger] raw_tiles@[i]).len() >= 1,
        forall|k: TileGroupResult| #[trigger] call_requires(*header, (k,)),
        forall|k: TileGroupResult, h: Vec<u8>| #[trigger] call_ensures(*header, (k,), h) ==> h.len() <= isize::MAX,
        group_fits(raw_tiles@, cols * rows > 1, disable_frame_end_update_cdf),
    ensures
        is_frame_packet(r@, raw_tiles@, cols * rows > 1, disable_frame_end_update_cdf, *key, metadata@, *header),
{
    let (kept, group): (TileGroupResult, Vec<u8>) = encode_tile_group(cols, rows, raw_tiles, disable_frame_end_update_cdf);
    assert(is_group(kept, group@, raw_tiles@, cols * rows > 1, disable_frame_end_update_cdf));
    let h: Vec<u8> = (*header)(kept);
    assert(call_ensures(*header, (kept,), h));
    encode_frame(key, metadata, h.as_slice(), group.as_slice())
}

/// The tiles are what `code` codes them to, by their number.
pub open spec fn coded_by<C: Fn(usize) -> Vec<u8>>(tiles: Seq<Vec<u8>>, code: C) -> bool {
    forall|i: int| 0 <= i < tiles.len() ==> call_ensures(code, (i as usize,), #[trigger] tiles[i])
}

/// What `code` returns depends on its argument alone.
pub open spec fn settled<A, C: Fn(A) -> Vec<u8>>(code: C) -> bool {
    forall|k: A, x: Vec<u8>, y: Vec<u8>| #[trigger] call_ensures(code, (k,), x) && #[trigger] call_ensures(code, (k,), y) ==> x@ == y@
}

/// The packet of a frame is determined by how its tiles are coded and its header is
/// written: where both depend on their inputs alone, two runs put out the same packet,
/// whichever threads coded the tiles and in whichever order they ended.
pub proof fn law_settled_coders_give_equal_packets<C: Fn(usize) -> Vec<u8>, H: Fn(TileGroupResult) -> Vec<u8>>(
    code: C,
    header: H,
    a: Seq<Vec<u8>>,
    b: Seq<Vec<u8>>,
    pa: Seq<u8>,
    pb: Seq<u8>,
    several: bool,
    disable_frame_end_update_cdf: bool,
    key: Option<KeyFrameUnits>,
    metadata: Seq<Vec<u8>>,
)
    requires
        settled(code),
        settled(header),
        a.len() == b.len() <= usize::MAX,
        coded_by(a, code),
        coded_by(b, code),
        is_frame_packet(pa, a, several, disable_frame_end_update_cdf, key, metadata, header),
        is_frame_packet(pb, b, several, disable_frame_end_update_cdf, key, metadata, header),
    ensures
        pa == pb,
{
    let (ra, ga, ha) = choose|r: TileGroupResult, group: Seq<u8>, h: Vec<u8>| {
        &&& #[trigger] is_group(r, group, a, several, disable_frame_end_update_cdf)
        &&& #[trigger] call_ensures(header, (r,), h)
        &&& pa == packet_head(key, metadata) + obu(ObuType::OBU_FRAME, h@ + group)
    };
    let (rb, gb, hb) = choose|r: TileGroupResult, group: Seq<u8>, h: Vec<u8>| {
        &&& #[trigger] is_group(r, group, b, several, disable_frame_end_update_cdf)
        &&& #[trigger] call_ensures(header, (r,), h)
        &&& pb == packet_head(key, metadata) + obu(ObuType::OBU_FRAME, h@ + group)
    };
    let bytes = |i: int| a[i]@;
    assert forall|i: int| 0 <= i < b.len() implies (#[trigger] b[i])@ == bytes(i) by {
        assert(call_ensures(code, (i as usize,), a[i]));
    }
    law_equal_tiles_give_equal_packets(
        bytes, a, b, ra, rb, ga, gb, several, disable_frame_end_update_cdf, key, metadata, |r: TileGroupResult| ha@);
}

/// Tiles of the same sizes have the same largest.
proof fn lemma_same_largest(a: Seq<Vec<u8>>, b: Seq<Vec<u8>>, i: int, j: int)
    requires
        a.len() == b.len(),
        forall|k: int| 0 <= k < a.len() ==> (#[trigger] a[k])@ == b[k]@,
        is_largest(a, i),
        is_largest(b, j),
    ensures
        i == j,
{
    assert(a[i]@ == b[i]@ && a[j]@ == b[j]@);
    assert(a[j].len() <= a[i].len() && b[i].len() <= b[j].len());
    if i < j {
        assert(a[j].len() < a[i].len());
    }
    if j < i {
        assert(b[i].len() < b[j].len());
    }
}

proof fn lemma_same_join(a: Seq<Vec<u8>>, b: Seq<Vec<u8>>, n: nat, from: int)
    requires
        0 <= from,
        a.len() == b.len(),
        forall|k: int| 0 <= k < a.len() ==> (#[trigger] a[k])@ == b[k]@,
    ensures
        joined_tiles(a, n, from) == joined_tiles(b, n, from),
    decreases a.len() - from,
{
    if from < a.len() {
        assert(a[from]@ == b[from]@);
        assert(a[from].len() == b[from].len());
        lemma_same_join(a, b, n, from + 1);
    }
}

/// A superblock lies at a multiple of 64 luma samples in both directions. The contexts to
/// the left start anew in the first column only; a superblock that the tile cuts off is
/// divided from the bottom up; and one is searched more deeply on the side of the cutoff
/// that the policy names, the cutoff itself on either.
pub proof fn law_plans_follow_the_place(p: SuperblockPolicy, mi_width: int, mi_height: int, x: int, y: int, rv: i64)
    requires
        0 <= x <= 0x10000,
        0 <= y <= 0x10000,
    ensures
        ({
            let s = superblock_plan(p, mi_width, mi_height, x, y, rv);
            &&& s.sbo.x == x && s.sbo.y == y
            &&& 4 * s.bo.x == 64 * x && 4 * s.bo.y == 64 * y
            &&& s.reset_left <==> x == 0
            &&& s.code_deltas == p.delta_q_present
            &&& s.bottomup <==> p.encode_bottomup || 64 * (x + 1) > 4 * mi_width || 64 * (y + 1) > 4 * mi_height
            &&& p.deep_force ==> s.deepen
            &&& !p.deep_force && p.deep is None ==> !s.deepen
            &&& !p.deep_force ==> (p.deep matches Some(d) ==> (d.route_lo ==> (s.deepen <==> rv <= d.cutoff)) && (!d.route_lo ==> (s.deepen <==> rv
                >= d.cutoff)))
            &&& !p.trellis ==> !s.trellis
            &&& p.trellis && p.trellis_all ==> s.trellis
            &&& p.trellis && !p.trellis_all ==> (s.trellis <==> rv > p.trellis_t)
        }),
{
}

/// The visible part of a superblock's side ends with the tile, or with the superblock.
pub proof fn law_visible_extent_ends_with_the_tile(mi: int, pos: int, k: int)
    requires
        0 <= pos <= mi,
        0 <= k < 64,
    ensures
        0 <= visible_extent(mi, pos) <= 64,
        k < visible_extent(mi, pos) <==> 4 * pos + k < 4 * mi,
{
}

/// Blocks are classed by their width: 64 samples or more, then each half of it.
pub proof fn law_classes_go_by_width(b: crate::partition::BlockSize)
    ensures
        ({
            let c = width_class(b.w() / 4);
            &&& c == 0 <==> b.w() == 64 || b.w() == 128
            &&& c == 1 <==> b.w() == 32
            &&& c == 2 <==> b.w() == 16
            &&& c == 3 <==> b.w() == 8
            &&& c == 4 <==> b.w() == 4
        }),
{
    crate::partition::law_blocks_have_their_names(b);
}

/// The classes share the units of a superblock that lie inside the tile: each unit counts
/// for one class. A superblock inside the tile whose blocks are all of one class is covered
/// by it alone.
pub proof fn law_classes_share_the_superblock(blocks: &TileBlocks, bo: TileBlockOffset, n: int, class: int)
    requires
        0 <= n <= 256,
        0 <= class < 5,
    ensures
        class_area(blocks, bo, 0, n) + class_area(blocks, bo, 1, n) + class_area(blocks, bo, 2, n) + class_area(blocks, bo, 3, n) + class_area(blocks, bo, 4, n)
            <= n,
        bo.x + 16 <= blocks.cols && bo.y + 16 <= blocks.rows ==> class_area(blocks, bo, 0, n) + class_area(blocks, bo, 1, n) + class_area(blocks, bo, 2, n)
            + class_area(blocks, bo, 3, n) + class_area(blocks, bo, 4, n) == n,
        bo.x + 16 <= blocks.cols && bo.y + 16 <= blocks.rows && (forall|x: int, y: int|
            bo.x <= x < bo.x + 16 && bo.y <= y < bo.y + 16 ==> width_class((#[trigger] blocks.block(x, y)).bsize.w() / 4) == class) ==> class_area(
            blocks,
            bo,
            class,
            n,
        ) == n,
        bo.x >= blocks.cols || bo.y >= blocks.rows ==> class_area(blocks, bo, class, n) == 0,
    decreases n,
{
    if n > 0 {
        law_classes_share_the_superblock(blocks, bo, n - 1, class);
        let x = bo.x + (n - 1) % 16;
        let y = bo.y + (n - 1) / 16;
        assert(bo.x <= x < bo.x + 16 && bo.y <= y < bo.y + 16);
        let w = width_class(blocks.block(x, y).bsize.w() / 4);
        assert(0 <= w < 5);
    }
}

/// Filters are compared on every second superblock in both directions, if it lies inside
/// the tile as a whole, and nowhere else.
pub proof fn law_probes_are_every_second_superblock(cols: int, rows: int, mi_width: int, mi_height: int, o: TileBlockOffset)
    requires
        0 < cols <= 0x10000,
        0 <= rows <= 0x10000,
    ensures
        probe_grid(cols, mi_width, mi_height, rows * cols).contains(o) <==> {
            &&& o.x as int % 32 == 0 && o.y as int % 32 == 0
            &&& o.x as int / 32 < cols && o.y as int / 32 < rows
            &&& o.x + 16 <= mi_width && o.y + 16 <= mi_height
        },
{
    assert(rows * cols <= 0x10000 * 0x10000) by (nonlinear_arith)
        requires 0 < cols <= 0x10000, 0 <= rows <= 0x10000;
    assert(0 <= rows * cols) by (nonlinear_arith)
        requires 0 < cols, 0 <= rows;
    let s = probe_grid(cols, mi_width, mi_height, rows * cols);
    if s.contains(o) {
        lemma_probed(cols, rows, mi_width, mi_height, rows * cols, o);
    }
    let (i, j) = (o.x as int / 32, o.y as int / 32);
    if o.x as int % 32 == 0 && o.y as int % 32 == 0 && i < cols && j < rows && o.x + 16 <= mi_width && o.y + 16 <= mi_height {
        let k = j * cols + i;
        assert(0 <= k < rows * cols) by (nonlinear_arith)
            requires 0 <= i < cols, 0 <= j < rows, k == j * cols + i;
        vstd::arithmetic::div_mod::lemma_fundamental_div_mod_converse(k, cols, j, i);
        lemma_probe_found(cols, mi_width, mi_height, rows * cols, k, o);
    }
}

proof fn lemma_probed(cols: int, rows: int, mi_width: int, mi_height: int, n: int, o: TileBlockOffset)
    requires
        0 < cols <= 0x10000,
        0 <= rows <= 0x10000,
        0 <= n <= rows * cols,
        probe_grid(cols, mi_width, mi_height, n).contains(o),
    ensures
        o.x as int % 32 == 0 && o.y as int % 32 == 0,
        o.x as int / 32 < cols && o.y as int / 32 < rows,
        o.x + 16 <= mi_width && o.y + 16 <= mi_height,
    decreases n,
{
    let s = probe_grid(cols, mi_width, mi_height, n);
    if n > 0 {
        let before = probe_grid(cols, mi_width, mi_height, n - 1);
        let k = n - 1;
        let (i, j) = (k % cols, k / cols);
        vstd::arithmetic::div_mod::lemma_fundamental_div_mod(k, cols);
        assert(0 <= i < cols && 0 <= j < rows) by (nonlinear_arith)
            requires 0 <= k < rows * cols, k == cols * j + i, i == k % cols, j == k / cols, cols > 0;
        if before.contains(o) {
            lemma_probed(cols, rows, mi_width, mi_height, n - 1, o);
        } else {
            let m = choose|m: int| 0 <= m < s.len() && s[m] == o;
            if m < before.len() {
                assert(before[m] == o);
            }
            assert(o.x == 32 * i && o.y == 32 * j);
        }
    }
}

proof fn lemma_probe_found(cols: int, mi_width: int, mi_height: int, n: int, k: int, o: TileBlockOffset)
    requires
        0 < cols,
        0 <= k < n,
        o.x == 32 * (k % cols),
        o.y == 32 * (k / cols),
        o.x + 16 <= mi_width,
        o.y + 16 <= mi_height,
    ensures
        probe_grid(cols, mi_width, mi_height, n).contains(o),
    decreases n,
{
    let s = probe_grid(cols, mi_width, mi_height, n);
    if k == n - 1 {
        assert(s.last() == o);
        assert(s[s.len() - 1] == o);
    } else {
        lemma_probe_found(cols, mi_width, mi_height, n - 1, k, o);
        let before = probe_grid(cols, mi_width, mi_height, n - 1);
        let m = choose|m: int| 0 <= m < before.len() && before[m] == o;
        assert(s[m] == o);
    }
}

/// The two filters are compared by their own residuals, each summed over all superblocks.
pub proof fn law_residuals_are_summed_apart(s: Seq<(u32, u32)>, r: (u32, u32))
    ensures
        satd_total(s.push(r), false, s.len() as int + 1) == satd_total(s, false, s.len() as int) + r.0,
        satd_total(s.push(r), true, s.len() as int + 1) == satd_total(s, true, s.len() as int) + r.1,
        satd_total(s, true, 0) == 0 && satd_total(s, false, 0) == 0,
{
    lemma_satd_same(s.push(r), s, false, s.len() as int);
    lemma_satd_same(s.push(r), s, true, s.len() as int);
}

proof fn lemma_satd_same(s: Seq<(u32, u32)>, t: Seq<(u32, u32)>, sharp: bool, n: int)
    requires
        n <= s.len(),
        n <= t.len(),
        forall|i: int| 0 <= i < n ==> #[trigger] s[i] == t[i],
    ensures
        satd_total(s, sharp, n) == satd_total(t, sharp, n),
    decreases n,
{
    if n > 0 {
        lemma_satd_same(s, t, sharp, n - 1);
        assert(s[n - 1] == t[n - 1]);
    }
}

/// A frame is deblocked where a luma level asks for it, then filtered by direction, then
/// restored; where either of the last two follows, the deblocked frame is kept between.
pub proof fn law_filters_follow_in_order(levels: Seq<u8>, enable_cdef: bool, enable_restoration: bool)
    ensures
        ({
            let s = post_filters(levels, enable_cdef, enable_restoration);
            let a = if levels[0] != 0 || levels[1] != 0 { 1int } else { 0 };
            let b = if enable_cdef || enable_restoration { 1int } else { 0 };
            &&& s.len() == a + b + (if enable_cdef { 1int } else { 0 }) + (if enable_restoration { 1int } else { 0 })
            &&& levels[0] != 0 || levels[1] != 0 ==> s[0] == PostFilter::Deblock
            &&& b == 1 ==> s[a] == PostFilter::KeepDeblocked
            &&& enable_cdef ==> s[a + 1] == PostFilter::Cdef
            &&& enable_restoration ==> s.last() == PostFilter::Restoration
        }),
{
}

/// A superblock is queued with the restoration unit that it takes part in on each plane
/// that there is; a unit counts as complete with its last superblock and not before.
pub proof fn law_units_complete_with_their_last_superblock(t: &TileEncoder, v: TileView, cdef_coded: bool, lru: Seq<Option<LruStatus>>, p: int)
    requires
        0 <= p < 3,
        lru.len() == 3,
        0 <= v.sbx <= 0x10000,
        0 <= v.sby <= 0x10000,
    ensures
        ({
            let n = t.filter.planes as int;
            let e = t.entry(v, cdef_coded, lru);
            let ready = ready_after(v.ready, lru, n);
            let after = t.after_superblock(v, cdef_coded, lru).0;
            &&& e.sbo.x == v.sbx && e.sbo.y == v.sby && e.cdef_coded == cdef_coded
            &&& p >= n || lru[p] is None ==> e.lru_index@[p] == -1 && ready[p] == v.ready[p]
            &&& p < n && lru[p] is Some ==> e.lru_index@[p] == lru[p]->0.index
            &&& p < n && lru[p] is Some && lru[p]->0.last_sb ==> ready[p] == lru[p]->0.index
            &&& p < n && lru[p] is Some && !lru[p]->0.last_sb ==> ready[p] == v.ready[p]
            &&& after.ready == ready
            &&& t.delayed ==> after.queue == v.queue.push(e) && after.rdoed == v.rdoed && after.coded == v.coded
        }),
{
}

} // verus!
