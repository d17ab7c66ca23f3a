use rusty_av1e::prof::bitacct::{Account, Class, FUNNEL_NAMES, NAMES};
use rusty_av1e::prof::{dump, rank, Profile, Stage, EXTRA_DUP, EXTRA_TOTAL, STAGES, STAGE_COUNT};

#[test]
fn stages_and_their_places() {
    assert_eq!(STAGE_COUNT, 45);
    assert_eq!(STAGES[0], Stage::Total);
    for (i, s) in STAGES.iter().enumerate() {
        assert_eq!(s.idx(), i);
        assert_eq!(*s as usize, i);
        // Informative stages say so.
        assert_eq!(s.is_info(), s.name().ends_with("[info]"));
        assert!(!(s.is_info() && s.is_rdo_child()));
    }
    assert_eq!(Stage::Total.name(), "TOTAL (receive_packet)");
    assert_eq!(Stage::ScanGather.name(), "  scan gather+cul_level [info]");
    let children: Vec<Stage> = STAGES.iter().copied().filter(|s| s.is_rdo_child()).collect();
    assert_eq!(
        children,
        vec![
            Stage::MotionEstEnc,
            Stage::Predict,
            Stage::FwdTransform,
            Stage::Quantize,
            Stage::Reconstruct,
            Stage::CtxSaveRestore,
            Stage::EntropyRate,
        ]
    );
}

#[test]
fn scopes_add_time_and_calls() {
    let mut p = Profile::new();
    p.record(Stage::Cdef, 100, 130);
    p.record(Stage::Cdef, 200, 205);
    p.record(Stage::Total, u64::MAX, 4);
    assert_eq!(p.cycles[Stage::Cdef.idx()], 35);
    assert_eq!(p.calls[Stage::Cdef.idx()], 2);
    assert_eq!(p.cycles[0], 5);
    p.bump(EXTRA_TOTAL);
    p.bump(EXTRA_TOTAL);
    p.bump(EXTRA_DUP);
    assert_eq!(p.extra, [1, 2]);
    p.reset();
    assert_eq!(p.cycles, [0; 45]);
    assert_eq!(p.calls, [0; 45]);
    assert_eq!(p.extra, [0, 0]);
}

#[test]
fn rows_are_ranked_and_ties_keep_their_order() {
    assert_eq!(rank(&[5, 9, 5, 0, 9], &[true, true, true, true, false]), vec![1, 0, 2, 3]);
    assert_eq!(rank(&[], &[]), Vec::<usize>::new());
}

#[test]
fn a_report_groups_its_rows() {
    let mut keys = [0u64; 45];
    let mut calls = [0u64; 45];
    keys[Stage::Cdef.idx()] = 7;
    keys[Stage::PartitionRdo.idx()] = 90;
    let b = dump(&keys, &calls);
    let name = |v: &Vec<usize>| v.iter().map(|&i| STAGES[i]).collect::<Vec<Stage>>();
    assert_eq!(
        name(&b.top),
        vec![
            Stage::PartitionRdo,
            Stage::Cdef,
            Stage::Lookahead,
            Stage::MotionEstimation,
            Stage::Deblock,
            Stage::LoopRestoration,
        ]
    );
    // No part of the search ran.
    assert!(b.kids.is_empty());
    assert!(b.infos.is_empty());
    calls[Stage::Quantize.idx()] = 1;
    calls[Stage::TxbCtx.idx()] = 3;
    calls[Stage::TellFrac.idx()] = 1;
    keys[Stage::TxbCtx.idx()] = 99;
    keys[Stage::EntropyRate.idx()] = 1;
    let b = dump(&keys, &calls);
    assert_eq!(b.kids.len(), 7);
    assert_eq!(STAGES[b.kids[0]], Stage::EntropyRate);
    assert_eq!(STAGES[b.kids[1]], Stage::MotionEstEnc);
    assert_eq!(name(&b.infos), vec![Stage::TellFrac, Stage::TxbCtx]);
}

#[test]
fn bits_are_accounted_by_class() {
    assert_eq!(NAMES[Class::TxSize.idx()], "tx size/type");
    assert_eq!(FUNNEL_NAMES[3], "of which COMPOUND");
    let mut a = Account::new(Some(""));
    assert!(a.on);
    assert!(a.dump().is_none());
    a.add(Class::Mv, 16);
    a.add(Class::Coeff, 40);
    let s = a.snapshot();
    // A trial that is rolled back leaves no trace.
    a.add(Class::Mv, 1000);
    a.acct(Class::Skip, false, 10, 13);
    assert_eq!(a.bits[Class::Skip.idx()], 3);
    a.restore(&s);
    assert_eq!(a.bits, s);
    // Counting writers and writers that went back add nothing.
    a.acct(Class::Skip, true, 10, 13);
    a.acct(Class::Skip, false, 13, 10);
    assert_eq!(a.bits, s);
    let r = a.dump().unwrap();
    assert_eq!(r.total, 56);
    assert_eq!(r.rows, vec![Class::Coeff.idx(), Class::Mv.idx()]);
    assert!(r.funnel.is_none());
    a.funnel(0);
    a.funnel(0);
    a.funnel(3);
    assert_eq!(a.dump().unwrap().funnel, Some([2, 0, 1]));
    a.reset();
    assert_eq!(a.bits, [0; 10]);
    assert_eq!(a.funnel, [2, 0, 0, 1]);
}

#[test]
fn nothing_is_accounted_unless_asked() {
    let mut a = Account::new(None);
    a.funnel(0);
    assert_eq!(a.funnel, [0; 4]);
    a.acct(Class::Mv, false, 0, 8);
    assert_eq!(a.bits, [0; 10]);
    a.add(Class::Mv, 8);
    assert!(a.dump().is_none());
}
