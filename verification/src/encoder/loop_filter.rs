//! The queue of coded superblocks that wait for their loop restoration units.

use std::collections::VecDeque;
use vstd::prelude::*;

verus! {

/// A superblock's position in a tile, in superblocks.
#[derive(Clone, Copy, Debug, PartialEq, Eq, Structural)]
pub struct SuperBlockOffset {
    pub x: usize,
    pub y: usize,
}

/// A superblock that is coded but not yet written out.
#[derive(Clone, Copy, Debug)]
pub struct SBSQueueEntry {
    pub sbo: SuperBlockOffset,
    /// The loop restoration unit of each plane; -1 where the superblock takes no
    /// part in a unit.
    pub lru_index: [i32; 3],
    pub cdef_coded: bool,
}

/// The last unit of each plane that is complete, decided and coded.
#[derive(Clone, Copy, Debug)]
pub struct LruProgress {
    pub ready: [i32; 3],
    pub rdoed: [i32; 3],
    pub coded: [i32; 3],
}

/// What a frame allows the loop filters.
#[derive(Clone, Copy, Debug, PartialEq, Eq, Structural)]
pub struct LoopFilterSettings {
    /// One without chroma, else three.
    pub planes: usize,
    pub enable_restoration: bool,
    pub allow_intrabc: bool,
}

/// What is to be done with a superblock, in order.
#[derive(Clone, Copy, Debug, PartialEq, Eq, Structural)]
pub enum LfAction {
    /// Decide the loop filters of the superblock's restoration units, deblocking
    /// first or not.
    LoopDecision(SuperBlockOffset, bool),
    /// Write the restoration parameters of a plane.
    WriteLrf(SuperBlockOffset, usize),
    /// Replay the symbols from before the filter index.
    ReplayPre(SuperBlockOffset),
    /// Write the filter index.
    WriteCdef(SuperBlockOffset),
    /// Replay the symbols from after the filter index.
    ReplayPost(SuperBlockOffset),
}

impl LruProgress {
    /// Nothing is complete.
    pub fn new() -> (r: Self)
        ensures
            forall|p: int| 0 <= p < 3 ==> #[trigger] r.ready@[p] == -1,
            forall|p: int| 0 <= p < 3 ==> #[trigger] r.rdoed@[p] == -1,
            forall|p: int| 0 <= p < 3 ==> #[trigger] r.coded@[p] == -1,
    {
        LruProgress { ready: [-1, -1, -1], rdoed: [-1, -1, -1], coded: [-1, -1, -1] }
    }
}

/// Every unit that the superblock belongs to is complete.
pub open spec fn is_ready(e: SBSQueueEntry, ready: Seq<i32>, planes: int) -> bool {
    forall|p: int| 0 <= p < planes ==> #[trigger] e.lru_index@[p] <= ready[p]
}

/// A unit that the superblock belongs to is decided already; then they all are.
pub open spec fn is_decided(e: SBSQueueEntry, rdoed: Seq<i32>, planes: int) -> bool {
    exists|p: int| 0 <= p < planes && #[trigger] e.lru_index@[p] != -1 && e.lru_index@[p] <= rdoed[p]
}

/// The superblock's unit of a plane comes after the last one.
pub open spec fn is_new_unit(e: SBSQueueEntry, last: Seq<i32>, p: int) -> bool {
    e.lru_index@[p] != -1 && last[p] < e.lru_index@[p]
}

/// The last units with those of the superblock taken in.
pub open spec fn raised(last: Seq<i32>, e: SBSQueueEntry, planes: int) -> Seq<i32> {
    Seq::new(3, |p: int| if p < planes && is_new_unit(e, last, p) { e.lru_index@[p] } else { last[p] })
}

/// The loop filters are decided for the superblock now.
pub open spec fn needs_decision(e: SBSQueueEntry, s: LoopFilterSettings, rdoed: Seq<i32>) -> bool {
    (e.cdef_coded || s.enable_restoration) && !is_decided(e, rdoed, s.planes as int)
}

/// Restoration parameters are written at all.
pub open spec fn writes_lrf(s: LoopFilterSettings) -> bool {
    !s.allow_intrabc && s.enable_restoration
}

/// The restoration parameters that the superblock writes for the first `n`
/// planes.
pub open spec fn lrf_actions(e: SBSQueueEntry, coded: Seq<i32>, n: int) -> Seq<LfAction>
    decreases n,
{
    if n <= 0 {
        seq![]
    } else if is_new_unit(e, coded, n - 1) {
        lrf_actions(e, coded, n - 1).push(LfAction::WriteLrf(e.sbo, (n - 1) as usize))
    } else {
        lrf_actions(e, coded, n - 1)
    }
}

/// Everything that is done with one superblock.
pub open spec fn entry_actions(e: SBSQueueEntry, s: LoopFilterSettings, rdoed: Seq<i32>, coded: Seq<i32>, deblock: bool) -> Seq<LfAction> {
    (if needs_decision(e, s, rdoed) { seq![LfAction::LoopDecision(e.sbo, deblock)] } else { seq![] })
        + (if writes_lrf(s) { lrf_actions(e, coded, s.planes as int) } else { seq![] })
        + seq![LfAction::ReplayPre(e.sbo)]
        + (if e.cdef_coded { seq![LfAction::WriteCdef(e.sbo), LfAction::ReplayPost(e.sbo)] } else { seq![] })
}

/// The state of the queue.
pub struct LfRun {
    pub actions: Seq<LfAction>,
    pub queue: Seq<SBSQueueEntry>,
    pub rdoed: Seq<i32>,
    pub coded: Seq<i32>,
}

/// The queue after its head is written out.
pub open spec fn advanced(r: LfRun, s: LoopFilterSettings, deblock: bool) -> LfRun {
    let e = r.queue[0];
    LfRun {
        actions: r.actions + entry_actions(e, s, r.rdoed, r.coded, deblock),
        queue: r.queue.subrange(1, r.queue.len() as int),
        rdoed: if needs_decision(e, s, r.rdoed) { raised(r.rdoed, e, s.planes as int) } else { r.rdoed },
        coded: if writes_lrf(s) { raised(r.coded, e, s.planes as int) } else { r.coded },
    }
}

/// The queue after every superblock at its head that is ready is written out.
pub open spec fn flushed(r: LfRun, s: LoopFilterSettings, ready: Seq<i32>, deblock: bool) -> LfRun
    decreases r.queue.len(),
{
    if r.queue.len() > 0 && is_ready(r.queue[0], ready, s.planes as int) {
        flushed(advanced(r, s, deblock), s, ready, deblock)
    } else {
        r
    }
}

fn ready_now(e: &SBSQueueEntry, ready: &[i32; 3], planes: usize) -> (r: bool)
    requires
        planes <= 3,
    ensures
        r == is_ready(*e, ready@, planes as int),
{
    let mut p: usize = 0;
    while p < planes
        invariant
            p <= planes <= 3,
            forall|k: int| 0 <= k < p ==> #[trigger] e.lru_index@[k] <= ready@[k],
        decreases planes - p,
    {
        if e.lru_index[p] > ready[p] {
            assert(e.lru_index@[p as int] > ready@[p as int]);
            return false;
        }
        p = p + 1;
    }
    true
}

fn decided_before(e: &SBSQueueEntry, rdoed: &[i32; 3], planes: usize) -> (r: bool)
    requires
        planes <= 3,
    ensures
        r == is_decided(*e, rdoed@, planes as int),
{
    let mut p: usize = 0;
    while p < planes
        invariant
            p <= planes <= 3,
            forall|k: int| 0 <= k < p ==> #[trigger] e.lru_index@[k] == -1 || e.lru_index@[k] > rdoed@[k],
        decreases planes - p,
    {
        if e.lru_index[p] != -1 && e.lru_index[p] <= rdoed[p] {
            assert(e.lru_index@[p as int] != -1);
            return true;
        }
        p = p + 1;
    }
    false
}

fn raise(last: &mut [i32; 3], e: &SBSQueueEntry, planes: usize)
    requires
        planes <= 3,
    ensures
        final(last)@ == raised(old(last)@, *e, planes as int),
{
    let ghost orig = last@;
    let mut p: usize = 0;
    while p < planes
        invariant
            p <= planes <= 3,
            last@ =~= raised(orig, *e, p as int),
            orig.len() == 3,
        decreases planes - p,
    {
        if e.lru_index[p] != -1 && last[p] < e.lru_index[p] {
            last[p] = e.lru_index[p];
        }
        p = p + 1;
    }
}

/// Writes out the superblocks at the head of the queue whose restoration units
/// are complete, in order. The loop filters are decided once for a unit, on a deblocked
/// reconstruction if `deblock_p` says so, and its parameters are written once.
pub fn check_lf_queue(s: &LoopFilterSettings, sbs_q: &mut VecDeque<SBSQueueEntry>, progress: &mut LruProgress, deblock_p: bool) -> (r: Vec<LfAction>)
    requires
        s.planes <= 3,
    ensures
        final(progress).ready == old(progress).ready,
        ({
            let start = LfRun { actions: seq![], queue: old(sbs_q)@, rdoed: old(progress).rdoed@, coded: old(progress).coded@ };
            let end = flushed(start, *s, old(progress).ready@, deblock_p);
            &&& r@ == end.actions
            &&& final(sbs_q)@ == end.queue
            &&& final(progress).rdoed@ == end.rdoed
            &&& final(progress).coded@ == end.coded
        }),
{
    let mut out: Vec<LfAction> = Vec::new();
    let ghost ready = progress.ready@;
    let ghost start = LfRun { actions: seq![], queue: sbs_q@, rdoed: progress.rdoed@, coded: progress.coded@ };
    let mut go: bool = true;
    assert(out@ =~= start.actions);
    while go
        invariant
            s.planes <= 3,
            ready == progress.ready@,
            progress.ready == old(progress).ready,
            go ==> flushed(LfRun { actions: out@, queue: sbs_q@, rdoed: progress.rdoed@, coded: progress.coded@ }, *s, ready, deblock_p) == flushed(start, *s, ready, deblock_p),
            !go ==> (LfRun { actions: out@, queue: sbs_q@, rdoed: progress.rdoed@, coded: progress.coded@ }) == flushed(start, *s, ready, deblock_p),
        decreases sbs_q@.len() + if go { 1nat } else { 0 },
    {
        if sbs_q.len() == 0 {
            go = false;
        } else {
            let e: SBSQueueEntry = sbs_q[0];
            if !ready_now(&e, &progress.ready, s.planes) {
                go = false;
            } else {
                let ghost before = LfRun { actions: out@, queue: sbs_q@, rdoed: progress.rdoed@, coded: progress.coded@ };
                if e.cdef_coded || s.enable_restoration {
                    if !decided_before(&e, &progress.rdoed, s.planes) {
                        out.push(LfAction::LoopDecision(e.sbo, deblock_p));
                        raise(&mut progress.rdoed, &e, s.planes);
                    }
                }
                let ghost a1 = out@;
                if !s.allow_intrabc && s.enable_restoration {
                    let ghost coded0 = progress.coded@;
                    let mut p: usize = 0;
                    while p < s.planes
                        invariant
                            p <= s.planes <= 3,
                            coded0 == progress.coded@,
                            out@ =~= a1 + lrf_actions(e, coded0, p as int),
                        decreases s.planes - p,
                    {
                        if e.lru_index[p] != -1 && progress.coded[p] < e.lru_index[p] {
                            out.push(LfAction::WriteLrf(e.sbo, p));
                        }
                        p = p + 1;
                    }
                    raise(&mut progress.coded, &e, s.planes);
                }
                out.push(LfAction::ReplayPre(e.sbo));
                if e.cdef_coded {
                    out.push(LfAction::WriteCdef(e.sbo));
                    out.push(LfAction::ReplayPost(e.sbo));
                }
                let _head: Option<SBSQueueEntry> = sbs_q.pop_front();
                proof {
                    let after = LfRun { actions: out@, queue: sbs_q@, rdoed: progress.rdoed@, coded: progress.coded@ };
                    let want = advanced(before, *s, deblock_p);
                    assert(after.actions =~= want.actions);
                    assert(after.queue =~= want.queue);
                    assert(after.rdoed =~= want.rdoed);
                    assert(after.coded =~= want.coded);
                }
            }
        }
    }
    out
}

/// Superblocks leave the queue in order and none is lost: what remains is the tail
/// of the queue, and its head is not ready.
pub proof fn law_queue_leaves_in_order(r: LfRun, s: LoopFilterSettings, ready: Seq<i32>, deblock: bool)
    ensures
        ({
            let end = flushed(r, s, ready, deblock);
            let n = r.queue.len() - end.queue.len();
            &&& 0 <= n <= r.queue.len()
            &&& end.queue == r.queue.subrange(n as int, r.queue.len() as int)
            &&& forall|i: int| 0 <= i < n ==> is_ready(#[trigger] r.queue[i], ready, s.planes as int)
            &&& end.queue.len() > 0 ==> !is_ready(end.queue[0], ready, s.planes as int)
        }),
    decreases r.queue.len(),
{
    let end = flushed(r, s, ready, deblock);
    if r.queue.len() > 0 && is_ready(r.queue[0], ready, s.planes as int) {
        let next = advanced(r, s, deblock);
        law_queue_leaves_in_order(next, s, ready, deblock);
        let m = next.queue.len() - end.queue.len();
        let n = r.queue.len() - end.queue.len();
        assert(n == m + 1);
        assert(end.queue =~= r.queue.subrange(n as int, r.queue.len() as int));
        assert forall|i: int| 0 <= i < n implies is_ready(#[trigger] r.queue[i], ready, s.planes as int) by {
            if i > 0 {
                assert(r.queue[i] == next.queue[i - 1]);
            }
        }
    } else {
        assert(end.queue =~= r.queue.subrange(0, r.queue.len() as int));
    }
}

/// Every unit that a queued superblock belongs to is complete.
pub open spec fn all_ready(queue: Seq<SBSQueueEntry>, ready: Seq<i32>, planes: int) -> bool {
    forall|i: int| 0 <= i < queue.len() ==> is_ready(#[trigger] queue[i], ready, planes)
}

/// The queue empties exactly where every unit that a queued superblock belongs to is
/// complete.
pub proof fn law_queue_empties_when_all_units_are_ready(r: LfRun, s: LoopFilterSettings, ready: Seq<i32>, deblock: bool)
    ensures
        flushed(r, s, ready, deblock).queue.len() == 0 <==> all_ready(r.queue, ready, s.planes as int),
{
    law_queue_leaves_in_order(r, s, ready, deblock);
    let end = flushed(r, s, ready, deblock);
    if end.queue.len() > 0 {
        let n = r.queue.len() - end.queue.len();
        assert(end.queue[0] == r.queue[n as int]);
        assert(!is_ready(r.queue[n as int], ready, s.planes as int));
    }
}

/// The parameters of a unit are written at most once: writing them for a
/// superblock leaves no plane whose unit is still new to that superblock.
pub proof fn law_units_are_coded_once(e: SBSQueueEntry, coded: Seq<i32>, planes: int)
    requires
        0 <= planes <= 3,
        coded.len() == 3,
    ensures
        lrf_actions(e, raised(coded, e, planes), planes) =~= Seq::<LfAction>::empty(),
    decreases planes,
{
    lemma_no_new_units(e, raised(coded, e, planes), planes);
}

proof fn lemma_no_new_units(e: SBSQueueEntry, last: Seq<i32>, n: int)
    requires
        forall|p: int| 0 <= p < n ==> !is_new_unit(e, last, p),
    ensures
        lrf_actions(e, last, n) =~= Seq::<LfAction>::empty(),
    decreases n,
{
    if n > 0 {
        lemma_no_new_units(e, last, n - 1);
    }
}

/// A decision covers every unit of its superblock: a superblock of the same units
/// that follows it is not decided again, as long as one of them counts.
pub proof fn law_units_are_decided_once(e: SBSQueueEntry, f: SBSQueueEntry, s: LoopFilterSettings, rdoed: Seq<i32>)
    requires
        s.planes <= 3,
        rdoed.len() == 3,
        f.lru_index == e.lru_index,
        exists|p: int| 0 <= p < s.planes && #[trigger] e.lru_index@[p] != -1,
    ensures
        !needs_decision(f, s, raised(rdoed, e, s.planes as int)),
{
    let p = choose|p: int| 0 <= p < s.planes && #[trigger] e.lru_index@[p] != -1;
    assert(f.lru_index@[p] != -1 && f.lru_index@[p] <= raised(rdoed, e, s.planes as int)[p]);
}

/// The parameters of restoration are written for each plane whose unit is new, in the order
/// of the planes, and for no other.
pub proof fn law_new_units_are_written(e: SBSQueueEntry, coded: Seq<i32>, n: int, p: int)
    requires
        0 <= n <= 3,
        0 <= p < 3,
    ensures
        lrf_actions(e, coded, n).contains(LfAction::WriteLrf(e.sbo, p as usize)) <==> p < n && e.lru_index@[p] != -1 && e.lru_index@[p] > coded[p],
        forall|i: int| 0 <= i < lrf_actions(e, coded, n).len() ==> (#[trigger] lrf_actions(e, coded, n)[i] matches LfAction::WriteLrf(o, q) && o == e.sbo && q < n),
        forall|i: int, j: int|
            0 <= i < j < lrf_actions(e, coded, n).len() ==> (#[trigger] lrf_actions(e, coded, n)[i])->WriteLrf_1 < (#[trigger] lrf_actions(e, coded, n)[j])->WriteLrf_1,
    decreases n,
{
    if n > 0 {
        law_new_units_are_written(e, coded, n - 1, p);
        let before = lrf_actions(e, coded, n - 1);
        let s = lrf_actions(e, coded, n);
        if is_new_unit(e, coded, n - 1) {
            let w = LfAction::WriteLrf(e.sbo, (n - 1) as usize);
            assert(s == before.push(w));
            assert(s[before.len() as int] == w);
            let x = LfAction::WriteLrf(e.sbo, p as usize);
            if before.contains(x) {
                let i = choose|i: int| 0 <= i < before.len() && before[i] == x;
                assert(s[i] == x);
            }
            if s.contains(x) && p != n - 1 {
                let i = choose|i: int| 0 <= i < s.len() && s[i] == x;
                assert(before[i] == x);
            }
        }
    }
}

/// What is done with a superblock, in order: the decision, where one is due, then the
/// parameters of restoration, the symbols from before the filter index, and where there is
/// an index it and the rest.
pub proof fn law_superblocks_are_written_in_order(e: SBSQueueEntry, s: LoopFilterSettings, rdoed: Seq<i32>, coded: Seq<i32>, deblock: bool)
    ensures
        ({
            let a = entry_actions(e, s, rdoed, coded, deblock);
            let due = (e.cdef_coded || s.enable_restoration) && !(exists|p: int|
                0 <= p < s.planes && #[trigger] e.lru_index@[p] != -1 && e.lru_index@[p] <= rdoed[p]);
            let lrf: Seq<LfAction> = if s.enable_restoration && !s.allow_intrabc { lrf_actions(e, coded, s.planes as int) } else { seq![] };
            let n = if due { 1int } else { 0 };
            let m = n + lrf.len();
            &&& a.len() == m + 1 + if e.cdef_coded { 2int } else { 0 }
            &&& due ==> a[0] == LfAction::LoopDecision(e.sbo, deblock)
            &&& a.subrange(n, m) == lrf
            &&& a[m] == LfAction::ReplayPre(e.sbo)
            &&& e.cdef_coded ==> a[m + 1] == LfAction::WriteCdef(e.sbo) && a[m + 2] == LfAction::ReplayPost(e.sbo)
        }),
{
    let a = entry_actions(e, s, rdoed, coded, deblock);
    let lrf: Seq<LfAction> = if s.enable_restoration && !s.allow_intrabc { lrf_actions(e, coded, s.planes as int) } else { seq![] };
    let n = if needs_decision(e, s, rdoed) { 1int } else { 0 };
    assert(a.subrange(n, n + lrf.len()) =~= lrf);
}

/// The last unit of a plane only goes up: to the superblock's, if it has one and that is
/// later.
pub proof fn law_units_only_go_up(last: Seq<i32>, e: SBSQueueEntry, planes: int, p: int)
    requires
        0 <= p < 3,
        last[p] >= -1,
        e.lru_index@[p] >= -1,
    ensures
        raised(last, e, planes)[p] >= last[p],
        p < planes ==> raised(last, e, planes)[p] >= e.lru_index@[p],
        raised(last, e, planes)[p] == last[p] || p < planes && raised(last, e, planes)[p] == e.lru_index@[p],
{
}

} // verus!
