use rusty_av1e::harvest;
use rusty_av1e::harvest::{FastTier, GateText, LambdaText};
use rusty_av1e::racecar;
use rusty_av1e::text::{
    eq_ignore_ascii_case, parse_i64, parse_u64, push_number, push_signed, same_text, split_fields,
    split_once, trim,
};
use rusty_av1e::transform::TxSize;

const TIERS: [FastTier; 5] =
    [FastTier::Off, FastTier::Clean, FastTier::Turbo, FastTier::Fast, FastTier::Quality];

#[test]
fn texts_are_read_as_the_standard_library_reads_them() {
    let samples = [
        "", " ", "1", " 1 ", "\t20\n", "\u{2003}7\u{3000}", "+5", "-5", "+", "-", "--5", "0x10", "1_000",
        "18446744073709551615", "18446744073709551616", "9223372036854775807", "9223372036854775808",
        "-9223372036854775808", "-9223372036854775809", "00012", "1 2", "12a", "\u{0661}", "-0",
        "99999999999999999999999999999999", "\u{200b}1", "\u{85}3\u{a0}",
    ];
    for s in samples {
        assert_eq!(trim(s), s.trim());
        assert_eq!(parse_u64(s), s.parse::<u64>().ok(), "{s:?}");
        assert_eq!(parse_i64(s), s.parse::<i64>().ok(), "{s:?}");
        for t in samples {
            assert_eq!(same_text(s, t), s == t);
        }
    }
    for (a, b) in [("On", "oN"), ("on", "off"), ("ÄB", "Äb"), ("Ä", "ä"), ("[", "{"), ("", "")] {
        assert_eq!(eq_ignore_ascii_case(a, b), a.eq_ignore_ascii_case(b), "{a:?} {b:?}");
    }
    for s in ["", ":", "a", "a:b", " a : b:c ", "a::b", ":x"] {
        assert_eq!(split_once(s), s.split_once(':'));
        assert_eq!(split_fields(s), s.split(':').map(str::trim).collect::<Vec<&str>>());
    }
}

#[test]
fn tiers_are_named() {
    assert_eq!(harvest::fast_tier(None), FastTier::Off);
    assert_eq!(harvest::fast_tier(Some(" Clean ")), FastTier::Clean);
    assert_eq!(harvest::fast_tier(Some("TURBO")), FastTier::Turbo);
    for s in ["1", "on", "fast", "FAST"] {
        assert_eq!(harvest::fast_tier(Some(s)), FastTier::Fast);
    }
    assert_eq!(harvest::fast_tier(Some("q")), FastTier::Quality);
    assert_eq!(harvest::fast_tier(Some("quality")), FastTier::Quality);
    assert_eq!(harvest::fast_tier(Some("2")), FastTier::Off);
    assert!(FastTier::Off < FastTier::Clean && FastTier::Fast < FastTier::Quality);
}

#[test]
fn unset_switches_follow_the_tier() {
    for t in TIERS {
        let turbo = t >= FastTier::Turbo;
        let fast = t >= FastTier::Fast;
        assert_eq!(harvest::trellis(None, t), turbo);
        assert_eq!(harvest::afilter(None, t), turbo);
        assert_eq!(harvest::fastrate(None, t), turbo);
        assert_eq!(harvest::frozen(None, t), turbo);
        assert_eq!(harvest::fastrd(None, t), turbo);
        assert_eq!(harvest::obmc(None, t), fast);
        assert_eq!(harvest::obmc_mgate(None, t), fast);
        assert_eq!(harvest::warp(None, t), fast);
        assert_eq!(harvest::pyramid_auto(None, t), fast);
        assert_eq!(harvest::sb_skip(None, t), if turbo { Some(8) } else { None });
        assert_eq!(harvest::mode_topk(None, t), if t == FastTier::Off { None } else { Some([6; 4]) });
        assert_eq!(matches!(harvest::part_gate(None, t), GateText::Standard), turbo);
        assert_eq!(matches!(harvest::pd0_gate(None, t), GateText::Standard), turbo);
        // A value that is set wins at every tier.
        assert!(!harvest::trellis(Some("0"), t));
        assert!(harvest::trellis(Some(" 1 "), t));
        assert!(!harvest::trellis(Some("on"), t));
        assert!(harvest::fastrate(Some("ON"), t));
        assert!(!harvest::obmc(Some(""), t));
        assert!(harvest::pyramid_auto(Some("AUTO"), t));
        assert!(!harvest::pyramid_auto(Some("3"), t));
    }
}

#[test]
fn plain_switches() {
    let switches: [(fn(Option<&str>) -> bool, &str); 16] = [
        (harvest::trellis_all, "trellis_all"),
        (harvest::fastsym, "fastsym"),
        (harvest::luma_reuse, "luma_reuse"),
        (harvest::txrate, "txrate"),
        (harvest::dispatch_hi, "dispatch_hi"),
        (harvest::chroma_presel, "chroma_presel"),
        (harvest::pd0_ceil, "pd0_ceil"),
        (harvest::sbseg, "sbseg"),
        (harvest::deep_force, "deep_force"),
        (harvest::deep_lo, "deep_lo"),
        (harvest::pbinterp, "pbinterp"),
        (harvest::obmc_force, "obmc_force"),
        (harvest::warp_force, "warp_force"),
        (harvest::warp_gate, "warp_gate"),
        (harvest::pbinterp_rdo, "pbinterp_rdo"),
        (harvest::global_motion, "global_motion"),
    ];
    for (f, name) in switches {
        assert!(!f(None), "{name}");
        assert!(f(Some(" 1")), "{name}");
        assert!(!f(Some("0")), "{name}");
        assert!(!f(Some("on")), "{name}");
    }
    for f in [harvest::warp_prepass_on, harvest::afilter3] {
        assert!(f(None) && f(Some("")) && f(Some("off")) && !f(Some(" 0 ")));
    }
    for f in [harvest::activity_mask, harvest::tpl] {
        assert!(f(None) && f(Some("1")) && !f(Some("OFF")) && !f(Some("0")));
    }
    assert!(harvest::rateharvest(Some("1"), Some("/tmp/x")));
    assert!(!harvest::rateharvest(Some("1"), None));
    assert!(!harvest::rateharvest(None, Some("/tmp/x")));
}

#[test]
fn numbers_and_their_defaults() {
    assert_eq!(harvest::trellis_t(None), 20000);
    assert_eq!(harvest::trellis_t(Some("-7")), -7);
    assert_eq!(harvest::trellis_t(Some("x")), 20000);
    assert_eq!(harvest::warp_shear_t(None), 4200);
    assert_eq!(harvest::warp_pre_t(Some("12")), 12);
    assert_eq!(harvest::warp_pre_t(Some("-12")), 1100);
    assert_eq!(harvest::warp_pre_gain_t(None), 0);
    assert_eq!(harvest::primref_max_level(None), 4);
    assert_eq!(harvest::primref_max_level(Some("2")), 2);
    assert_eq!(harvest::adaptk(Some(" 15 ")), Some(15));
    assert_eq!(harvest::adaptk(None), None);
    assert_eq!(harvest::fastcoeff(Some("0")), None);
    assert_eq!(harvest::fastcoeff(Some("3")), Some(3));
    assert_eq!(harvest::txrate_mul(Some("90")), Some(90));
    assert_eq!(harvest::varpart(Some("-1")), Some(-1));
    assert_eq!(harvest::varpart(Some("")), None);
    assert_eq!(harvest::intra_topk(Some("0")), Some(0));
    assert_eq!(harvest::filter_probe(Some("2")), Some(2));
    assert_eq!(harvest::filter_probe(Some("3")), None);
    assert_eq!(harvest::sb_skip(Some("0"), FastTier::Fast), None);
    assert_eq!(harvest::sb_skip(Some("off"), FastTier::Fast), None);
    assert_eq!(harvest::sb_skip(Some("12"), FastTier::Off), Some(12));
    assert_eq!(harvest::sb_skip(Some("00"), FastTier::Off), Some(0));
}

#[test]
fn caps_on_mode_trials() {
    let caps = |s| harvest::mode_topk(Some(s), FastTier::Fast);
    assert_eq!(caps(" 4 "), Some([4; 4]));
    assert_eq!(caps("8: 6:4 :2"), Some([8, 6, 4, 2]));
    for s in ["", "0", "off", "8:6", "8:6:4:0", "1:2:3:4:5", "a", "0:1:1:1"] {
        assert_eq!(caps(s), None, "{s:?}");
    }
}

#[test]
fn motion_vector_costs() {
    assert_eq!(harvest::mvcost(None), None);
    assert_eq!(harvest::mvcost(Some("0")), None);
    assert_eq!(harvest::mvcost(Some("off")), None);
    assert_eq!(harvest::mvcost(Some("1")), Some((46, -23, 16)));
    assert_eq!(harvest::mvcost(Some(" on ")), Some((46, -23, 16)));
    assert_eq!(harvest::mvcost(Some("1: -2 :3")), Some((1, -2, 3)));
    assert_eq!(harvest::mvcost(Some("1:2:3:junk")), Some((1, 2, 3)));
    assert_eq!(harvest::mvcost(Some("1:2")), None);
    assert_eq!(harvest::mvcost(Some("1:2:2147483648")), None);
    assert_eq!(harvest::mvcost(Some("1:2:-2147483648")), Some((1, 2, i32::MIN)));
}

#[test]
fn thresholds_as_they_are_written() {
    match harvest::part_gate(Some("300: 150:75:1"), FastTier::Off) {
        GateText::Three(a, b, c) => assert_eq!((a, b, c), ("300", "150", "75")),
        _ => panic!("three fields"),
    }
    assert!(matches!(harvest::part_gate(Some("300:150"), FastTier::Fast), GateText::Off));
    assert!(matches!(harvest::part_gate(Some("off"), FastTier::Fast), GateText::Off));
    match harvest::pd0_gate(Some(" -999 : 0.134 "), FastTier::Off) {
        GateText::Two(a, b) => assert_eq!((a, b), ("-999", "0.134")),
        _ => panic!("two fields"),
    }
    assert!(matches!(harvest::pd0_gate(Some("1"), FastTier::Fast), GateText::Off));
    assert!(matches!(harvest::pd0_real(None), GateText::Off));
    match harvest::pd0_real(Some("1:2:3")) {
        GateText::Two(a, b) => assert_eq!((a, b), ("1", "2:3")),
        _ => panic!("two fields"),
    }
    assert!(matches!(harvest::lrf_gate(Some("1")), GateText::Standard));
    assert!(matches!(harvest::lrf_gate(Some("on")), GateText::Standard));
    assert!(matches!(harvest::lrf_gate(Some("")), GateText::Off));
    // This one is not trimmed before it is compared.
    assert!(matches!(harvest::lrf_gate(Some(" 1")), GateText::Off));
}

#[test]
fn lambda_multipliers_as_they_are_written() {
    assert!(harvest::lambda_mult(None).is_none());
    assert!(harvest::lambda_mult(Some(" off ")).is_none());
    match harvest::lambda_mult(Some("l:1: 1.1:1.2:1.3")) {
        Some(LambdaText::Level(f)) => assert_eq!(f, vec!["1", "1.1", "1.2", "1.3"]),
        _ => panic!("levels"),
    }
    match harvest::lambda_mult(Some("i:0.9")) {
        Some(LambdaText::Intra(m)) => assert_eq!(m, "0.9"),
        _ => panic!("intra"),
    }
    match harvest::lambda_mult(Some("p: 0.9")) {
        Some(LambdaText::Inter(m)) => assert_eq!(m, " 0.9"),
        _ => panic!("inter"),
    }
    match harvest::lambda_mult(Some("0.8:1.2")) {
        Some(LambdaText::Pair(a, b)) => assert_eq!((a, b), ("0.8", "1.2")),
        _ => panic!("pair"),
    }
    match harvest::lambda_mult(Some("1.5")) {
        Some(LambdaText::Both(m)) => assert_eq!(m, "1.5"),
        _ => panic!("both"),
    }
}

#[test]
fn symbol_costs_are_rounded_logarithms() {
    assert_eq!(harvest::sym_cost_frac(0), 104);
    assert_eq!(harvest::sym_cost_frac(1), 72);
    assert_eq!(harvest::sym_cost_frac(256), 8);
    assert_eq!(harvest::sym_cost_frac(512), 0);
    for w in 1..=512usize {
        let want = ((9.0 - (w as f64).log2()) * 8.0).round() as u32;
        assert_eq!(harvest::sym_cost_frac(w), want, "width {w}");
        assert!(w == 1 || harvest::sym_cost_frac(w) <= harvest::sym_cost_frac(w - 1));
    }
}

#[test]
fn pyramid_depth_is_latched() {
    let mut chosen = None;
    harvest::set_pyramid_override(&mut chosen, 9);
    assert_eq!(chosen, Some(4));
    harvest::set_pyramid_override(&mut chosen, 1);
    assert_eq!(chosen, Some(4));
    let mut depth = None;
    assert_eq!(harvest::pyramid_depth(&mut depth, chosen, Some("3")), 4);
    assert_eq!(harvest::pyramid_depth(&mut depth, None, Some("3")), 4);
    for (v, want) in [(None, 2), (Some("3"), 3), (Some("0"), 1), (Some("77"), 4), (Some("auto"), 2)] {
        let mut depth = None;
        assert_eq!(harvest::pyramid_depth(&mut depth, None, v), want);
        assert_eq!(depth, Some(want));
    }
}

#[test]
fn observations_are_lines() {
    assert!(harvest::enabled(Some("rows.csv")));
    assert!(!harvest::enabled(None));
    assert_eq!(harvest::emit(Some("rows.csv"), "a,b"), Some("a,b\n".to_string()));
    assert_eq!(harvest::emit(None, "a,b"), None);
}

#[test]
fn racecar_resolution_order() {
    // The default, and what the variable says.
    for (v, want) in [
        (None, true),
        (Some("1"), true),
        (Some("0"), false),
        (Some("off"), false),
        (Some("OFF"), false),
        (Some(" 0"), true),
    ] {
        let mut mode = None;
        assert_eq!(racecar::on(&mut mode, v), want);
        // Latched by the first read.
        racecar::set(&mut mode, !want);
        assert_eq!(racecar::on(&mut mode, None), want);
    }
    let mut mode = None;
    racecar::set(&mut mode, false);
    racecar::set(&mut mode, true);
    assert!(!racecar::on(&mut mode, Some("1")));
}

#[test]
fn numbers_are_written_as_the_standard_library_writes_them() {
    for n in [0u64, 7, 10, 99, 100, 4096, 1_000_000_007, u64::MAX] {
        let mut out = "x".to_string();
        push_number(&mut out, n);
        assert_eq!(out, format!("x{n}"));
        assert_eq!(parse_u64(&out[1..]), Some(n));
    }
    for v in [0i64, 5, -5, -10, i64::MAX, i64::MIN] {
        let mut out = String::new();
        push_signed(&mut out, v);
        assert_eq!(out, v.to_string());
        assert_eq!(parse_i64(&out), Some(v));
    }
}

#[test]
fn observations_are_lines_of_numbers() {
    assert_eq!(harvest::rate_line(120, TxSize::TX_16X16, 4567, 89), "RATE,120,2,4567,89");
    assert_eq!(
        harvest::superblock_line(17, -3, [256, 0, 64, 1, 2]),
        "SBSEG,17,-3,256,0,64,1,2"
    );
}
