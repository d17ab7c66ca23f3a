//! Where the effort of trials goes: counts by block size and by phase of the search.

use vstd::prelude::*;

use crate::prof::wrapped;

verus! {

/// The class of a block by its longer side: 64 and above, 32, 16, and below.
pub open spec fn size_bucket(dim: int) -> int {
    if dim >= 64 {
        0
    } else if dim >= 32 {
        1
    } else if dim >= 16 {
        2
    } else {
        3
    }
}

/// The class of a block by its longer side.
pub fn bucket(dim: usize) -> (r: usize)
    ensures
        r == size_bucket(dim as int),
        r < 4,
{
    if dim >= 64 {
        0
    } else if dim >= 32 {
        1
    } else if dim >= 16 {
        2
    } else {
        3
    }
}

/// Cycles and calls by size class; trials first, then final encodes.
pub struct TrialAudit {
    pub cycles: [u64; 8],
    pub calls: [u64; 8],
}

/// Where a count goes.
pub open spec fn cell(class: int, counts_only: bool) -> int {
    2 * class + if counts_only { 0int } else { 1 }
}

impl TrialAudit {
    /// Nothing was counted.
    pub fn new() -> (r: Self)
        ensures
            forall|i: int| 0 <= i < 8 ==> #[trigger] r.cycles@[i] == 0,
            forall|i: int| 0 <= i < 8 ==> #[trigger] r.calls@[i] == 0,
    {
        TrialAudit { cycles: [0; 8], calls: [0; 8] }
    }

    /// Counts one call that took `dt` cycles.
    pub fn record(&mut self, b: usize, counts_only: bool, dt: u64)
        requires
            b < 4,
        ensures
            final(self).cycles@ == old(self).cycles@.update(
                cell(b as int, counts_only),
                wrapped(old(self).cycles@[cell(b as int, counts_only)], dt as int),
            ),
            final(self).calls@ == old(self).calls@.update(cell(b as int, counts_only), wrapped(old(self).calls@[cell(b as int, counts_only)], 1)),
    {
        let i: usize = 2 * b + if counts_only { 0 } else { 1 };
        let cycles: u64 = self.cycles[i].wrapping_add(dt);
        let calls: u64 = self.calls[i].wrapping_add(1);
        self.cycles[i] = cycles;
        self.calls[i] = calls;
    }
}

/// A phase of the search that transforms are counted for.
#[derive(Clone, Copy, Debug, PartialEq, Eq, Structural)]
pub enum Phase {
    ModeTrial,
    TxSearch,
    Final,
}

/// Transforms by phase; trials first, then final encodes.
pub struct ForwardCounts {
    pub phase: Phase,
    pub counts: [u64; 6],
}

impl Phase {
    /// The place of a phase.
    pub open spec fn place(self) -> int {
        match self {
            Phase::ModeTrial => 0,
            Phase::TxSearch => 1,
            Phase::Final => 2,
        }
    }
}

impl ForwardCounts {
    /// Nothing was counted, and no phase was entered.
    pub fn new() -> (r: Self)
        ensures
            r.phase == Phase::Final,
            forall|i: int| 0 <= i < 6 ==> #[trigger] r.counts@[i] == 0,
    {
        ForwardCounts { phase: Phase::Final, counts: [0; 6] }
    }

    /// Enters a phase; the one before is handed back, to be entered again at its end.
    pub fn enter(&mut self, p: Phase) -> (r: Phase)
        ensures
            r == old(self).phase,
            final(self).phase == p,
            final(self).counts == old(self).counts,
    {
        let before: Phase = self.phase;
        self.phase = p;
        before
    }

    /// Counts one transform for the current phase.
    pub fn count(&mut self, counts_only: bool)
        ensures
            final(self).phase == old(self).phase,
            final(self).counts@ == old(self).counts@.update(
                cell(old(self).phase.place(), counts_only),
                wrapped(old(self).counts@[cell(old(self).phase.place(), counts_only)], 1),
            ),
    {
        let p: usize = match self.phase {
            Phase::ModeTrial => 0,
            Phase::TxSearch => 1,
            Phase::Final => 2,
        };
        let i: usize = 2 * p + if counts_only { 0 } else { 1 };
        let n: u64 = self.counts[i].wrapping_add(1);
        self.counts[i] = n;
    }
}

/// Classes halve with the longer side of a block, from 64 samples down to below 16.
pub proof fn law_classes_halve(dim: int)
    ensures
        0 <= size_bucket(dim) < 4,
        size_bucket(dim) == 0 <==> dim >= 64,
        size_bucket(dim) == 1 <==> 32 <= dim < 64,
        size_bucket(dim) == 2 <==> 16 <= dim < 32,
        size_bucket(dim) == 3 <==> dim < 16,
{
}

/// Every class counts trials and final encodes in cells of their own, side by side.
pub proof fn law_cells_are_apart(a: int, b: int, x: bool, y: bool)
    requires
        0 <= a,
        0 <= b,
    ensures
        cell(a, x) == cell(b, y) ==> a == b && x == y,
        cell(a, false) == cell(a, true) + 1,
        cell(0, true) == 0,
        cell(a + 1, true) == cell(a, false) + 1,
        Phase::ModeTrial.place() == 0 && Phase::TxSearch.place() == 1 && Phase::Final.place() == 2,
{
}

} // verus!
