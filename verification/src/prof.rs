//! The stage profiler: the taxonomy of the encoder's stages, the counters of time
//! and calls, and which rows of a report belong together.

use vstd::prelude::*;

pub mod bitacct;

verus! {

/// A stage of the pipeline. `Total` wraps a whole frame; the stages of the search
/// nest inside `PartitionRdo`; the stages from `SymbolMachinery` on nest inside
/// others and only inform.
#[derive(Clone, Copy, Debug, PartialEq, Eq, Structural)]
pub enum Stage {
    Total,
    Lookahead,
    MotionEstimation,
    PartitionRdo,
    Deblock,
    Cdef,
    LoopRestoration,
    MotionEstEnc,
    Predict,
    FwdTransform,
    Quantize,
    Reconstruct,
    CtxSaveRestore,
    EntropyRate,
    SymbolMachinery,
    TellFrac,
    NzMapCtx,
    QuantEobScan,
    QuantMainLoop,
    LoopFilterRdo,
    ComputeDistortion,
    ComputeRdCost,
    LfRdoSetup,
    Diff,
    IntraEdges,
    CflAlpha,
    InterModeScreen,
    FinalEncode,
    EncodeBlockPost,
    WriteTxBlocks,
    WriteTxTree,
    MotionCompensate,
    RdoTxSizeType,
    Replay,
    IntraModeRdo,
    ChromaDupTrial,
    AngleRefine,
    RecLogPush,
    TxDistLoop,
    MvRefList,
    QcoeffsZero,
    TxbCtx,
    TxbInitLevels,
    CoeffSigns,
    ScanGather,
}

/// The number of stages.
pub const STAGE_COUNT: usize = 45;

/// Every stage, in the order of declaration.
pub const STAGES: [Stage; 45] = [
    Stage::Total,
    Stage::Lookahead,
    Stage::MotionEstimation,
    Stage::PartitionRdo,
    Stage::Deblock,
    Stage::Cdef,
    Stage::LoopRestoration,
    Stage::MotionEstEnc,
    Stage::Predict,
    Stage::FwdTransform,
    Stage::Quantize,
    Stage::Reconstruct,
    Stage::CtxSaveRestore,
    Stage::EntropyRate,
    Stage::SymbolMachinery,
    Stage::TellFrac,
    Stage::NzMapCtx,
    Stage::QuantEobScan,
    Stage::QuantMainLoop,
    Stage::LoopFilterRdo,
    Stage::ComputeDistortion,
    Stage::ComputeRdCost,
    Stage::LfRdoSetup,
    Stage::Diff,
    Stage::IntraEdges,
    Stage::CflAlpha,
    Stage::InterModeScreen,
    Stage::FinalEncode,
    Stage::EncodeBlockPost,
    Stage::WriteTxBlocks,
    Stage::WriteTxTree,
    Stage::MotionCompensate,
    Stage::RdoTxSizeType,
    Stage::Replay,
    Stage::IntraModeRdo,
    Stage::ChromaDupTrial,
    Stage::AngleRefine,
    Stage::RecLogPush,
    Stage::TxDistLoop,
    Stage::MvRefList,
    Stage::QcoeffsZero,
    Stage::TxbCtx,
    Stage::TxbInitLevels,
    Stage::CoeffSigns,
    Stage::ScanGather,
];

impl Stage {
    /// The place of the stage in the order of declaration.
    pub open spec fn place(self) -> int {
        match self {
            Stage::Total => 0,
            Stage::Lookahead => 1,
            Stage::MotionEstimation => 2,
            Stage::PartitionRdo => 3,
            Stage::Deblock => 4,
            Stage::Cdef => 5,
            Stage::LoopRestoration => 6,
            Stage::MotionEstEnc => 7,
            Stage::Predict => 8,
            Stage::FwdTransform => 9,
            Stage::Quantize => 10,
            Stage::Reconstruct => 11,
            Stage::CtxSaveRestore => 12,
            Stage::EntropyRate => 13,
            Stage::SymbolMachinery => 14,
            Stage::TellFrac => 15,
            Stage::NzMapCtx => 16,
            Stage::QuantEobScan => 17,
            Stage::QuantMainLoop => 18,
            Stage::LoopFilterRdo => 19,
            Stage::ComputeDistortion => 20,
            Stage::ComputeRdCost => 21,
            Stage::LfRdoSetup => 22,
            Stage::Diff => 23,
            Stage::IntraEdges => 24,
            Stage::CflAlpha => 25,
            Stage::InterModeScreen => 26,
            Stage::FinalEncode => 27,
            Stage::EncodeBlockPost => 28,
            Stage::WriteTxBlocks => 29,
            Stage::WriteTxTree => 30,
            Stage::MotionCompensate => 31,
            Stage::RdoTxSizeType => 32,
            Stage::Replay => 33,
            Stage::IntraModeRdo => 34,
            Stage::ChromaDupTrial => 35,
            Stage::AngleRefine => 36,
            Stage::RecLogPush => 37,
            Stage::TxDistLoop => 38,
            Stage::MvRefList => 39,
            Stage::QcoeffsZero => 40,
            Stage::TxbCtx => 41,
            Stage::TxbInitLevels => 42,
            Stage::CoeffSigns => 43,
            Stage::ScanGather => 44,
        }
    }

    /// The place of the stage in the order of declaration.
    pub fn idx(self) -> (r: usize)
        ensures
            r == self.place(),
            r < STAGE_COUNT,
    {
        match self {
            Stage::Total => 0,
            Stage::Lookahead => 1,
            Stage::MotionEstimation => 2,
            Stage::PartitionRdo => 3,
            Stage::Deblock => 4,
            Stage::Cdef => 5,
            Stage::LoopRestoration => 6,
            Stage::MotionEstEnc => 7,
            Stage::Predict => 8,
            Stage::FwdTransform => 9,
            Stage::Quantize => 10,
            Stage::Reconstruct => 11,
            Stage::CtxSaveRestore => 12,
            Stage::EntropyRate => 13,
            Stage::SymbolMachinery => 14,
            Stage::TellFrac => 15,
            Stage::NzMapCtx => 16,
            Stage::QuantEobScan => 17,
            Stage::QuantMainLoop => 18,
            Stage::LoopFilterRdo => 19,
            Stage::ComputeDistortion => 20,
            Stage::ComputeRdCost => 21,
            Stage::LfRdoSetup => 22,
            Stage::Diff => 23,
            Stage::IntraEdges => 24,
            Stage::CflAlpha => 25,
            Stage::InterModeScreen => 26,
            Stage::FinalEncode => 27,
            Stage::EncodeBlockPost => 28,
            Stage::WriteTxBlocks => 29,
            Stage::WriteTxTree => 30,
            Stage::MotionCompensate => 31,
            Stage::RdoTxSizeType => 32,
            Stage::Replay => 33,
            Stage::IntraModeRdo => 34,
            Stage::ChromaDupTrial => 35,
            Stage::AngleRefine => 36,
            Stage::RecLogPush => 37,
            Stage::TxDistLoop => 38,
            Stage::MvRefList => 39,
            Stage::QcoeffsZero => 40,
            Stage::TxbCtx => 41,
            Stage::TxbInitLevels => 42,
            Stage::CoeffSigns => 43,
            Stage::ScanGather => 44,
        }
    }

    /// The label of the stage.
    pub open spec fn label(self) -> Seq<char> {
        match self {
            Stage::Total => "TOTAL (receive_packet)"@,
            Stage::Lookahead => "lookahead intra-cost"@,
            Stage::MotionEstimation => "motion est. (lookahead)"@,
            Stage::PartitionRdo => "partition+mode RDO+recon"@,
            Stage::Deblock => "deblock (opt+apply)"@,
            Stage::Cdef => "cdef (apply)"@,
            Stage::LoopRestoration => "loop restoration (apply)"@,
            Stage::MotionEstEnc => "ME (search: rust, SAD/SATD: asm)"@,
            Stage::Predict => "prediction+MC (asm)"@,
            Stage::FwdTransform => "fwd transform (asm)"@,
            Stage::Quantize => "quantize (PURE RUST)"@,
            Stage::Reconstruct => "inv-transform recon (asm)"@,
            Stage::CtxSaveRestore => "CDF checkpoint/rollback (rust)"@,
            Stage::EntropyRate => "coeff entropy/rate (rust)"@,
            Stage::SymbolMachinery => "symbol_with_update [info]"@,
            Stage::TellFrac => "tell_frac [info]"@,
            Stage::NzMapCtx => "get_nz_map_contexts [info]"@,
            Stage::QuantEobScan => "quantize: eob scan [info]"@,
            Stage::QuantMainLoop => "quantize: main loop [info]"@,
            Stage::LoopFilterRdo => "loop-filter RDO search [info]"@,
            Stage::ComputeDistortion => "compute_distortion [info]"@,
            Stage::ComputeRdCost => "compute_rd_cost [info]"@,
            Stage::LfRdoSetup => "  lf-rdo setup+alloc [info]"@,
            Stage::Diff => "diff (residual) [info]"@,
            Stage::IntraEdges => "get_intra_edges [info]"@,
            Stage::CflAlpha => "rdo_cfl_alpha [info]"@,
            Stage::InterModeScreen => "inter mode screen/SATD [info]"@,
            Stage::FinalEncode => "final encode (winner recode) [info]"@,
            Stage::EncodeBlockPost => "encode_block_post_cdef incl [info]"@,
            Stage::WriteTxBlocks => "  write_tx_blocks incl [info]"@,
            Stage::WriteTxTree => "  write_tx_tree incl [info]"@,
            Stage::MotionCompensate => "  motion_compensate incl [info]"@,
            Stage::RdoTxSizeType => "rdo_tx_size_type [info]"@,
            Stage::Replay => "recorder replay->encoder [info]"@,
            Stage::IntraModeRdo => "intra mode RDO family [info]"@,
            Stage::ChromaDupTrial => "  chroma 2nd-iter re-code [info]"@,
            Stage::AngleRefine => "  intra angle refinement [info]"@,
            Stage::RecLogPush => "cdf undo-log push [info]"@,
            Stage::TxDistLoop => "tx-domain dist loop [info]"@,
            Stage::MvRefList => "find_mvrefs [info]"@,
            Stage::QcoeffsZero => "qcoeffs zeroing [info]"@,
            Stage::TxbCtx => "  get_txb_ctx [info]"@,
            Stage::TxbInitLevels => "  txb_init_levels [info]"@,
            Stage::CoeffSigns => "  encode_coeff_signs [info]"@,
            Stage::ScanGather => "  scan gather+cul_level [info]"@,
        }
    }

    /// The label of the stage.
    pub fn name(self) -> (r: &'static str)
        ensures
            r@ == self.label(),
    {
        match self {
            Stage::Total => "TOTAL (receive_packet)",
            Stage::Lookahead => "lookahead intra-cost",
            Stage::MotionEstimation => "motion est. (lookahead)",
            Stage::PartitionRdo => "partition+mode RDO+recon",
            Stage::Deblock => "deblock (opt+apply)",
            Stage::Cdef => "cdef (apply)",
            Stage::LoopRestoration => "loop restoration (apply)",
            Stage::MotionEstEnc => "ME (search: rust, SAD/SATD: asm)",
            Stage::Predict => "prediction+MC (asm)",
            Stage::FwdTransform => "fwd transform (asm)",
            Stage::Quantize => "quantize (PURE RUST)",
            Stage::Reconstruct => "inv-transform recon (asm)",
            Stage::CtxSaveRestore => "CDF checkpoint/rollback (rust)",
            Stage::EntropyRate => "coeff entropy/rate (rust)",
            Stage::SymbolMachinery => "symbol_with_update [info]",
            Stage::TellFrac => "tell_frac [info]",
            Stage::NzMapCtx => "get_nz_map_contexts [info]",
            Stage::QuantEobScan => "quantize: eob scan [info]",
            Stage::QuantMainLoop => "quantize: main loop [info]",
            Stage::LoopFilterRdo => "loop-filter RDO search [info]",
            Stage::ComputeDistortion => "compute_distortion [info]",
            Stage::ComputeRdCost => "compute_rd_cost [info]",
            Stage::LfRdoSetup => "  lf-rdo setup+alloc [info]",
            Stage::Diff => "diff (residual) [info]",
            Stage::IntraEdges => "get_intra_edges [info]",
            Stage::CflAlpha => "rdo_cfl_alpha [info]",
            Stage::InterModeScreen => "inter mode screen/SATD [info]",
            Stage::FinalEncode => "final encode (winner recode) [info]",
            Stage::EncodeBlockPost => "encode_block_post_cdef incl [info]",
            Stage::WriteTxBlocks => "  write_tx_blocks incl [info]",
            Stage::WriteTxTree => "  write_tx_tree incl [info]",
            Stage::MotionCompensate => "  motion_compensate incl [info]",
            Stage::RdoTxSizeType => "rdo_tx_size_type [info]",
            Stage::Replay => "recorder replay->encoder [info]",
            Stage::IntraModeRdo => "intra mode RDO family [info]",
            Stage::ChromaDupTrial => "  chroma 2nd-iter re-code [info]",
            Stage::AngleRefine => "  intra angle refinement [info]",
            Stage::RecLogPush => "cdf undo-log push [info]",
            Stage::TxDistLoop => "tx-domain dist loop [info]",
            Stage::MvRefList => "find_mvrefs [info]",
            Stage::QcoeffsZero => "qcoeffs zeroing [info]",
            Stage::TxbCtx => "  get_txb_ctx [info]",
            Stage::TxbInitLevels => "  txb_init_levels [info]",
            Stage::CoeffSigns => "  encode_coeff_signs [info]",
            Stage::ScanGather => "  scan gather+cul_level [info]",
        }
    }

    /// Whether the stage nests inside another and is shown without being summed.
    pub open spec fn info(self) -> bool {
        self.place() >= Stage::SymbolMachinery.place()
    }

    /// Whether the stage nests inside `PartitionRdo`.
    pub open spec fn rdo_child(self) -> bool {
        Stage::MotionEstEnc.place() <= self.place() <= Stage::EntropyRate.place()
    }

    /// Whether the stage is a phase of the frame pipeline.
    pub open spec fn phase(self) -> bool {
        self != Stage::Total && !self.rdo_child() && !self.info()
    }

    /// Whether the stage nests inside another and is shown without being summed.
    pub fn is_info(self) -> (r: bool)
        ensures
            r == self.info(),
    {
        self.idx() >= Stage::SymbolMachinery.idx()
    }

    /// Whether the stage nests inside `PartitionRdo`.
    pub fn is_rdo_child(self) -> (r: bool)
        ensures
            r == self.rdo_child(),
    {
        Stage::MotionEstEnc.idx() <= self.idx() && self.idx() <= Stage::EntropyRate.idx()
    }
}

/// The table of stages lists each at its own place.
pub proof fn law_table_lists_each_stage_at_its_place(i: int)
    requires
        0 <= i < STAGE_COUNT,
    ensures
        STAGES[i].place() == i,
{
}

/// Two stages at one place are one stage.
pub proof fn law_places_tell_stages_apart(a: Stage, b: Stage)
    requires
        a.place() == b.place(),
    ensures
        a == b,
{
}

/// A stage is the total, a phase, a part of the search or information, and only one
/// of these; so no time is summed twice.
pub proof fn law_each_stage_is_counted_once(s: Stage)
    ensures
        s == Stage::Total || s.phase() || s.rdo_child() || s.info(),
        !(s == Stage::Total && (s.phase() || s.rdo_child() || s.info())),
        !(s.phase() && (s.rdo_child() || s.info())),
        !(s.rdo_child() && s.info()),
{
}

/// Whether index `i` is ranked before index `j`: by a larger key, or by a smaller
/// index where the keys are the same.
pub open spec fn before(keys: Seq<u64>, i: int, j: int) -> bool {
    keys[i] > keys[j] || (keys[i] == keys[j] && i < j)
}

/// Whether indexes are ranked by their keys, the largest first.
pub open spec fn ranked(rows: Seq<usize>, keys: Seq<u64>) -> bool {
    forall|a: int, b: int|
        0 <= a < b < rows.len() ==> before(keys, #[trigger] rows[a] as int, #[trigger] rows[b] as int)
}

/// The indexes below `n` that are kept, ranked by their keys.
pub open spec fn ranking(rows: Seq<usize>, keys: Seq<u64>, keep: Seq<bool>, n: int) -> bool {
    &&& ranked(rows, keys)
    &&& forall|a: int| 0 <= a < rows.len() ==> (#[trigger] rows[a]) < n && keep[rows[a] as int]
    &&& forall|i: int| 0 <= i < n && #[trigger] keep[i] ==> rows.contains(i as usize)
}

/// Puts the index `i`, which is above those ranked so far, at its rank.
fn insert_ranked(rows: &mut Vec<usize>, keys: &[u64], keep: &[bool], i: usize)
    requires
        i < keys.len() == keep.len(),
        keep[i as int],
        ranking(old(rows)@, keys@, keep@, i as int),
    ensures
        ranking(final(rows)@, keys@, keep@, i as int + 1),
{
    let ghost was = rows@;
    let mut at: usize = 0;
    while at < rows.len() && keys[rows[at]] >= keys[i]
        invariant
            at <= rows.len(),
            rows@ == was,
            i < keys.len() == keep.len(),
            ranking(was, keys@, keep@, i as int),
            forall|a: int| 0 <= a < at ==> before(keys@, #[trigger] was[a] as int, i as int),
        decreases rows.len() - at,
    {
        at = at + 1;
    }
    proof {
        assert forall|a: int| at <= a < was.len() implies before(keys@, i as int, #[trigger] was[a] as int) by {
            if a > at {
                assert(before(keys@, was[at as int] as int, was[a] as int));
            }
        }
    }
    rows.insert(at, i);
    proof {
        let now = rows@;
        assert(now == was.insert(at as int, i));
        assert forall|a: int, b: int| 0 <= a < b < now.len() implies before(
            keys@,
            #[trigger] now[a] as int,
            #[trigger] now[b] as int,
        ) by {
            let fa = if a < at { was[a] } else if a > at { was[a - 1] } else { i };
            let fb = if b < at { was[b] } else if b > at { was[b - 1] } else { i };
            assert(now[a] == fa && now[b] == fb);
        }
        assert forall|j: int| 0 <= j < i + 1 && #[trigger] keep[j] implies now.contains(j as usize) by {
            if j == i {
                assert(now[at as int] == i);
            } else {
                let a = choose|a: int| 0 <= a < was.len() && was[a] == j as usize;
                assert(was.contains(j as usize));
                if a < at {
                    assert(now[a] == j as usize);
                } else {
                    assert(now[a + 1] == j as usize);
                }
            }
        }
        assert forall|a: int| 0 <= a < now.len() implies (#[trigger] now[a]) < i + 1 && keep[now[a] as int] by {
            let fa = if a < at { was[a] } else if a > at { was[a - 1] } else { i };
            assert(now[a] == fa);
        }
    }
}

/// The indexes that are kept, ranked by their keys, the largest first; of equal
/// keys the smaller index comes first.
pub fn rank(keys: &[u64], keep: &[bool]) -> (r: Vec<usize>)
    requires
        keys.len() == keep.len(),
    ensures
        ranking(r@, keys@, keep@, keys.len() as int),
{
    let mut rows: Vec<usize> = Vec::new();
    let mut i: usize = 0;
    while i < keys.len()
        invariant
            i <= keys.len() == keep.len(),
            ranking(rows@, keys@, keep@, i as int),
        decreases keys.len() - i,
    {
        if keep[i] {
            insert_ranked(&mut rows, keys, keep, i);
        }
        i = i + 1;
    }
    rows
}

/// A ranking is the only one of its keys: whatever is kept stands at one rank.
pub proof fn law_ranking_is_unique(a: Seq<usize>, b: Seq<usize>, keys: Seq<u64>, keep: Seq<bool>, n: int)
    requires
        0 <= n <= usize::MAX,
        n <= keep.len(),
        ranking(a, keys, keep, n),
        ranking(b, keys, keep, n),
    ensures
        a == b,
    decreases a.len() + b.len(),
{
    lemma_ranking_prefix(a, b, keys, keep, n, 0);
    if a.len() < b.len() {
        lemma_ranking_prefix(a, b, keys, keep, n, a.len() as int);
        assert(keep[b[a.len() as int] as int]);
        let x = b[a.len() as int];
        assert(a.contains(x));
        let k = choose|k: int| 0 <= k < a.len() && a[k] == x;
        assert(b[k] == x);
        assert(before(keys, b[k] as int, b[a.len() as int] as int));
    } else if b.len() < a.len() {
        lemma_ranking_prefix(a, b, keys, keep, n, b.len() as int);
        assert(keep[a[b.len() as int] as int]);
        let x = a[b.len() as int];
        assert(b.contains(x));
        let k = choose|k: int| 0 <= k < b.len() && b[k] == x;
        assert(a[k] == x);
        assert(before(keys, a[k] as int, a[b.len() as int] as int));
    } else {
        lemma_ranking_prefix(a, b, keys, keep, n, a.len() as int);
        assert(a =~= b);
    }
}

proof fn lemma_ranking_prefix(a: Seq<usize>, b: Seq<usize>, keys: Seq<u64>, keep: Seq<bool>, n: int, m: int)
    requires
        0 <= n <= usize::MAX,
        n <= keep.len(),
        0 <= m <= a.len(),
        m <= b.len(),
        ranking(a, keys, keep, n),
        ranking(b, keys, keep, n),
    ensures
        forall|i: int| 0 <= i < m ==> a[i] == b[i],
    decreases m,
{
    if m > 0 {
        let l = m - 1;
        lemma_ranking_prefix(a, b, keys, keep, n, l);
        let x = a[l];
        let y = b[l];
        assert(keep[x as int] && keep[y as int]);
        assert(b.contains(x) && a.contains(y));
        let i = choose|i: int| 0 <= i < b.len() && b[i] == x;
        let j = choose|j: int| 0 <= j < a.len() && a[j] == y;
        if x != y {
            if i < l {
                assert(a[i] == x);
                assert(before(keys, a[i] as int, a[l] as int));
            }
            if j < l {
                assert(b[j] == y);
                assert(before(keys, b[j] as int, b[l] as int));
            }
            assert(before(keys, b[l] as int, b[i] as int));
            assert(before(keys, a[l] as int, a[j] as int));
        }
    }
}

/// The counter of pushes to the undo log that a check for duplicates would spare.
pub const EXTRA_DUP: usize = 0;

/// The counter of all pushes to the undo log.
pub const EXTRA_TOTAL: usize = 1;

/// What the profiler has counted since it was last reset.
pub struct Profile {
    /// Time spent in each stage, in ticks.
    pub cycles: [u64; 45],
    /// Visits of each stage.
    pub calls: [u64; 45],
    /// Counters that stand for themselves.
    pub extra: [u64; 2],
}

/// The sum of two counters, which turn over.
pub open spec fn wrapped(a: u64, b: int) -> u64 {
    ((a + b) % 0x1_0000_0000_0000_0000) as u64
}

impl Profile {
    /// Nothing has been counted.
    pub open spec fn is_zero(&self) -> bool {
        &&& forall|i: int| 0 <= i < STAGE_COUNT ==> #[trigger] self.cycles[i] == 0
        &&& forall|i: int| 0 <= i < STAGE_COUNT ==> #[trigger] self.calls[i] == 0
        &&& self.extra[0] == 0
        &&& self.extra[1] == 0
    }

    /// A profile that has counted nothing.
    pub fn new() -> (r: Self)
        ensures
            r.is_zero(),
    {
        Profile { cycles: [0; 45], calls: [0; 45], extra: [0, 0] }
    }

    /// Counts one visit of a stage that began at tick `start` and ended at `end`.
    pub fn record(&mut self, stage: Stage, start: u64, end: u64)
        ensures
            final(self).cycles@ == old(self).cycles@.update(
                stage.place(),
                wrapped(old(self).cycles[stage.place()], wrapped(end, -(start as int)) as int),
            ),
            final(self).calls@ == old(self).calls@.update(
                stage.place(),
                wrapped(old(self).calls[stage.place()], 1),
            ),
            final(self).extra == old(self).extra,
    {
        let i: usize = stage.idx();
        let elapsed: u64 = end.wrapping_sub(start);
        assert(elapsed == wrapped(end, -(start as int)));
        let c: u64 = self.cycles[i].wrapping_add(elapsed);
        let n: u64 = self.calls[i].wrapping_add(1);
        self.cycles[i] = c;
        self.calls[i] = n;
    }

    /// Adds one to a counter that stands for itself.
    pub fn bump(&mut self, idx: usize)
        requires
            idx < 2,
        ensures
            final(self).extra@ == old(self).extra@.update(
                idx as int,
                wrapped(old(self).extra[idx as int], 1),
            ),
            final(self).cycles == old(self).cycles,
            final(self).calls == old(self).calls,
    {
        let n: u64 = self.extra[idx].wrapping_add(1);
        self.extra[idx] = n;
    }

    /// Clears every counter.
    pub fn reset(&mut self)
        ensures
            final(self).is_zero(),
    {
        *self = Profile::new();
    }
}

/// The rows of a report.
pub struct Breakdown {
    /// The phases of the pipeline, the longest first.
    pub top: Vec<usize>,
    /// The parts of the search, the longest first; nothing where none ran.
    pub kids: Vec<usize>,
    /// The informative stages that ran, in the order of declaration.
    pub infos: Vec<usize>,
}

/// The rows that show a group of stages, ranked by their keys.
pub open spec fn rows_of(rows: Seq<usize>, keys: Seq<u64>, group: spec_fn(Stage) -> bool) -> bool {
    ranking(rows, keys, Seq::new(STAGE_COUNT as nat, |i: int| group(STAGES[i])), STAGE_COUNT as int)
}

/// Whether a part of the search took time or was visited.
pub open spec fn search_ran(keys: Seq<u64>, calls: Seq<u64>) -> bool {
    exists|i: int|
        0 <= i < STAGE_COUNT && (#[trigger] STAGES[i]).rdo_child() && (keys[i] > 0 || calls[i] > 0)
}

/// The groups of rows of a report: `keys` orders the stages by their time, with
/// zero for none.
pub fn dump(keys: &[u64; 45], calls: &[u64; 45]) -> (r: Breakdown)
    ensures
        rows_of(r.top@, keys@, |s: Stage| s.phase()),
        if search_ran(keys@, calls@) {
            rows_of(r.kids@, keys@, |s: Stage| s.rdo_child())
        } else {
            r.kids@.len() == 0
        },
        ranking(
            r.infos@,
            Seq::new(STAGE_COUNT as nat, |i: int| 0u64),
            Seq::new(STAGE_COUNT as nat, |i: int| STAGES[i].info() && calls[i] > 0),
            STAGE_COUNT as int,
        ),
{
    let mut top: [bool; 45] = [false; 45];
    let mut kid: [bool; 45] = [false; 45];
    let mut info: [bool; 45] = [false; 45];
    let mut ran: bool = false;
    let mut i: usize = 0;
    while i < STAGE_COUNT
        invariant
            i <= STAGE_COUNT,
            forall|j: int| 0 <= j < i ==> #[trigger] top[j] == STAGES[j].phase(),
            forall|j: int| 0 <= j < i ==> #[trigger] kid[j] == STAGES[j].rdo_child(),
            forall|j: int| 0 <= j < i ==> #[trigger] info[j] == (STAGES[j].info() && calls[j] > 0),
            ran ==> search_ran(keys@, calls@),
            !ran ==> forall|j: int|
                0 <= j < i ==> !((#[trigger] STAGES[j]).rdo_child() && (keys[j] > 0 || calls[j] > 0)),
        decreases STAGE_COUNT - i,
    {
        let s: Stage = STAGES[i];
        let child: bool = s.is_rdo_child();
        let nested: bool = s.is_info();
        top[i] = !matches!(s, Stage::Total) && !child && !nested;
        kid[i] = child;
        info[i] = nested && calls[i] > 0;
        if child && (keys[i] > 0 || calls[i] > 0) {
            assert(STAGES[i as int].rdo_child());
            ran = true;
        }
        i = i + 1;
    }
    proof {
        assert(top@ =~= Seq::new(STAGE_COUNT as nat, |i: int| (|s: Stage| s.phase())(STAGES[i])));
        assert(kid@ =~= Seq::new(STAGE_COUNT as nat, |i: int| (|s: Stage| s.rdo_child())(STAGES[i])));
        assert(info@ =~= Seq::new(STAGE_COUNT as nat, |i: int| STAGES[i].info() && calls[i] > 0));
    }
    let zeros: [u64; 45] = [0; 45];
    assert(zeros@ =~= Seq::new(STAGE_COUNT as nat, |i: int| 0u64));
    let kids: Vec<usize> = if ran { rank(keys, &kid) } else { Vec::new() };
    Breakdown { top: rank(keys, &top), kids, infos: rank(&zeros, &info) }
}

/// Which stages are phases of the pipeline, and which are parts of the search; all others
/// but the total are information.
pub proof fn law_stages_by_name(s: Stage)
    ensures
        s.phase() <==> s == Stage::Lookahead || s == Stage::MotionEstimation || s == Stage::PartitionRdo || s == Stage::Deblock || s == Stage::Cdef || s
            == Stage::LoopRestoration,
        s.rdo_child() <==> s == Stage::MotionEstEnc || s == Stage::Predict || s == Stage::FwdTransform || s == Stage::Quantize || s == Stage::Reconstruct || s
            == Stage::CtxSaveRestore || s == Stage::EntropyRate,
        s.info() <==> s != Stage::Total && !s.phase() && !s.rdo_child(),
{
}

/// The labels of stages that are shown without being summed say so at their end, and no
/// other label does.
#[verifier::rlimit(60)]
pub proof fn law_labels_mark_information(s: Stage)
    ensures
        s.label().len() > 7,
        s.info() <==> s.label().skip(s.label().len() - 7) == seq![' ', '[', 'i', 'n', 'f', 'o', ']'],
{
    reveal_strlit("TOTAL (receive_packet)");
    reveal_strlit("lookahead intra-cost");
    reveal_strlit("motion est. (lookahead)");
    reveal_strlit("partition+mode RDO+recon");
    reveal_strlit("deblock (opt+apply)");
    reveal_strlit("cdef (apply)");
    reveal_strlit("loop restoration (apply)");
    reveal_strlit("ME (search: rust, SAD/SATD: asm)");
    reveal_strlit("prediction+MC (asm)");
    reveal_strlit("fwd transform (asm)");
    reveal_strlit("quantize (PURE RUST)");
    reveal_strlit("inv-transform recon (asm)");
    reveal_strlit("CDF checkpoint/rollback (rust)");
    reveal_strlit("coeff entropy/rate (rust)");
    reveal_strlit("symbol_with_update [info]");
    reveal_strlit("tell_frac [info]");
    reveal_strlit("get_nz_map_contexts [info]");
    reveal_strlit("quantize: eob scan [info]");
    reveal_strlit("quantize: main loop [info]");
    reveal_strlit("loop-filter RDO search [info]");
    reveal_strlit("compute_distortion [info]");
    reveal_strlit("compute_rd_cost [info]");
    reveal_strlit("  lf-rdo setup+alloc [info]");
    reveal_strlit("diff (residual) [info]");
    reveal_strlit("get_intra_edges [info]");
    reveal_strlit("rdo_cfl_alpha [info]");
    reveal_strlit("inter mode screen/SATD [info]");
    reveal_strlit("final encode (winner recode) [info]");
    reveal_strlit("encode_block_post_cdef incl [info]");
    reveal_strlit("  write_tx_blocks incl [info]");
    reveal_strlit("  write_tx_tree incl [info]");
    reveal_strlit("  motion_compensate incl [info]");
    reveal_strlit("rdo_tx_size_type [info]");
    reveal_strlit("recorder replay->encoder [info]");
    reveal_strlit("intra mode RDO family [info]");
    reveal_strlit("  chroma 2nd-iter re-code [info]");
    reveal_strlit("  intra angle refinement [info]");
    reveal_strlit("cdf undo-log push [info]");
    reveal_strlit("tx-domain dist loop [info]");
    reveal_strlit("find_mvrefs [info]");
    reveal_strlit("qcoeffs zeroing [info]");
    reveal_strlit("  get_txb_ctx [info]");
    reveal_strlit("  txb_init_levels [info]");
    reveal_strlit("  encode_coeff_signs [info]");
    reveal_strlit("  scan gather+cul_level [info]");
    let tail = s.label().skip(s.label().len() - 7);
    if s.info() {
        assert(tail =~= seq![' ', '[', 'i', 'n', 'f', 'o', ']']);
    } else {
        assert(tail[6] != ']');
    }
}

/// Rows stand in the order of their keys, the largest first, and where keys are the same in
/// the order of declaration; no row stands twice.
pub proof fn law_rows_stand_by_their_keys(rows: Seq<usize>, keys: Seq<u64>, keep: Seq<bool>, n: int, a: int, b: int)
    requires
        ranking(rows, keys, keep, n),
        0 <= a < b < rows.len(),
    ensures
        keys[rows[a] as int] >= keys[rows[b] as int],
        keys[rows[a] as int] == keys[rows[b] as int] ==> rows[a] < rows[b],
        rows[a] != rows[b],
{
    assert(before(keys, rows[a] as int, rows[b] as int));
}

/// Counters turn over at 64 bits: a sum that fits is the sum, and the time between two
/// readings is right across a turn.
pub proof fn law_counters_turn_over(a: u64, b: int)
    ensures
        0 <= a + b <= u64::MAX ==> wrapped(a, b) == a + b,
        -0x1_0000_0000_0000_0000 <= b < 0 && a + b < 0 ==> wrapped(a, b) == a + b + 0x1_0000_0000_0000_0000,
        u64::MAX < a + b < 0x2_0000_0000_0000_0000 ==> wrapped(a, b) == a + b - 0x1_0000_0000_0000_0000,
{
}

} // verus!
