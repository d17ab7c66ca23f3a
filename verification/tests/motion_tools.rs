use rusty_av1e::mc::{put_8tap, MotionVector, Prediction};
use rusty_av1e::plane::{Frame, Plane};
use rusty_av1e::tempfilter::{
    filter_frame, maybe_filter_altref, queued_neighbours, refine_subpel, weight, AltrefGate, FilterBlock,
    FrameQueue,
};
use rusty_av1e::warp::{
    model_shear, predict_warp, resolve_divisor_32, resolve_divisor_64, solve_warp, WarpFilters,
    WarpedMotionParams,
};
use std::collections::BTreeMap;
use std::sync::Arc;

fn filled(width: usize, height: usize, xdec: usize, ydec: usize, f: impl Fn(isize, isize) -> u8) -> Plane<u8> {
    let pad = 32;
    let mut p: Plane<u8> = Plane::new(width, height, xdec, ydec, pad, pad);
    let pad = pad as isize;
    for y in -pad..height as isize + pad {
        for x in -pad..width as isize + pad {
            p.set(x, y, f(x.clamp(0, width as isize - 1), y.clamp(0, height as isize - 1)));
        }
    }
    p
}

fn frame(f: impl Fn(isize, isize) -> u8) -> Frame<u8> {
    Frame {
        planes: vec![
            filled(64, 48, 0, 0, &f),
            filled(32, 24, 1, 1, |x, y| f(2 * x, 2 * y)),
            filled(32, 24, 1, 1, |x, y| f(2 * x + 1, 2 * y + 1)),
        ],
    }
}

fn texture(x: isize, y: isize) -> u8 {
    (((x * 37) ^ (y * 59)) & 0xff) as u8
}

fn any_gain(whole: u64, best: u64) -> bool {
    best <= whole
}

fn same(a: &Frame<u8>, b: &Frame<u8>) -> bool {
    a.planes.len() == b.planes.len() && a.planes.iter().zip(&b.planes).all(|(p, q)| p.data == q.data)
}

#[test]
fn interpolation_at_known_positions() {
    let p = filled(32, 32, 0, 0, |x, _| if x < 16 { 0 } else { 100 });
    let mut dst = Prediction { data: [0; 256] };
    put_8tap(&mut dst, &p, 8, 8, 16, 16, 0, 0, 8);
    assert_eq!(dst.data[..16], [0, 0, 0, 0, 0, 0, 0, 0, 100, 100, 100, 100, 100, 100, 100, 100]);
    // Half a sample to the right: the edge with its undershoot and overshoot,
    // which are held to what eight bits allow.
    put_8tap(&mut dst, &p, 8, 8, 16, 16, 8, 0, 8);
    assert_eq!(dst.data[..16], [0, 0, 0, 0, 0, 2, 0, 50, 109, 98, 100, 100, 100, 100, 100, 100]);
    // Nothing changes from row to row, so half a sample down is a copy.
    put_8tap(&mut dst, &p, 8, 8, 16, 16, 0, 8, 8);
    assert_eq!(dst.data[..16], [0, 0, 0, 0, 0, 0, 0, 0, 100, 100, 100, 100, 100, 100, 100, 100]);
    put_8tap(&mut dst, &p, 8, 8, 16, 16, 8, 8, 8);
    assert_eq!(dst.data[7], 50);
}

#[test]
fn flat_pictures_stay_flat() {
    let p = filled(32, 32, 0, 0, |_, _| 77);
    let mut dst = Prediction { data: [0; 256] };
    for frac in 0..16 {
        put_8tap(&mut dst, &p, 4, 4, 16, 16, frac, 15 - frac, 8);
        assert_eq!(dst.data, [77; 256]);
        put_8tap(&mut dst, &p, 4, 4, 4, 4, frac, frac, 8);
        assert_eq!(dst.data[..4], [77; 4]);
    }
}

#[test]
fn a_static_scene_is_unchanged() {
    let f = frame(texture);
    let g = frame(texture);
    for subpel in [false, true] {
        let out = filter_frame(&f, &[&g, &g], 4, 8, subpel, &any_gain);
        assert!(same(&out, &f));
    }
}

#[test]
fn noise_is_averaged_by_weight() {
    // A neighbour that differs by two everywhere: 12 >> 4 is 0, so it counts half as
    // much as the target.
    let f = frame(|_, _| 100);
    let g = frame(|_, _| 106);
    let out = filter_frame(&f, &[&g], 8, 8, false, &any_gain);
    // Each difference of 6 costs 108 >> 8 = 0: (100 * 32 + 106 * 16 + 24) / 48.
    assert_eq!(out.planes[0].at(5, 5), 102);
    assert_eq!(out.planes[1].at(5, 5), 102);
    // The padding is left as it was.
    assert_eq!(out.planes[0].at(-1, -1), 100);
    // At a lower strength 108 >> 2 is above sixteen, and nothing is blended.
    let out = filter_frame(&f, &[&g], 2, 8, false, &any_gain);
    assert!(same(&out, &f));
}

#[test]
fn refinements_are_taken_by_the_rule() {
    // The neighbour is the ramp half a sample to the left.
    let f = frame(|x, _| (4 * x) as u8);
    let g = frame(|x, _| (4 * x + 2) as u8);
    let refined = filter_frame(&f, &[&g], 4, 8, true, &any_gain);
    assert_eq!(refined.planes[0].at(24, 24), f.planes[0].at(24, 24));
    // Without refinement samples differ by two: (32 c + 16 (c + 2) + 24) / 48.
    let refused = filter_frame(&f, &[&g], 4, 8, true, &|_: u64, _: u64| false);
    let plain = filter_frame(&f, &[&g], 4, 8, false, &any_gain);
    assert!(same(&refused, &plain));
    assert_eq!(plain.planes[0].at(24, 24), f.planes[0].at(24, 24) + 1);
}

#[test]
fn weights_fall_with_the_difference() {
    let f = frame(|_, _| 100);
    let blend = |v: u8, strength: u32| {
        let g = frame(move |_, _| v);
        filter_frame(&f, &[&g], strength, 8, false, &any_gain).planes[0].at(5, 5) as i32 - 100
    };
    // 3 * 100 >> 5 is nine, so that seven parts of a difference of ten count.
    assert_eq!(blend(110, 5), 2);
    assert_eq!(blend(90, 5), -2);
    assert_eq!(blend(114, 5), 0);
    assert_eq!(blend(114, 7), 4);
    assert_eq!(blend(100, 0), 0);
}

#[test]
fn moving_content_is_followed() {
    // The neighbour is the same picture two samples to the right.
    let f = frame(texture);
    let g = frame(|x, y| texture(x - 2, y));
    let out = filter_frame(&f, &[&g], 0, 8, false, &any_gain);
    assert_eq!(out.planes[0].at(24, 24), f.planes[0].at(24, 24));
}

fn gate() -> AltrefGate {
    AltrefGate {
        enabled: true,
        show_frame: false,
        intra_only: false,
        pyramid_level: 0,
        max_level: 0,
        input_frameno: 4,
    }
}

#[test]
fn only_hidden_anchors_are_filtered() {
    let source = Arc::new(frame(|_, _| 100));
    let other = Arc::new(frame(|_, _| 106));
    let mut q: FrameQueue<u8> = BTreeMap::new();
    q.insert(4, Some(source.clone()));
    q.insert(7, Some(other.clone()));
    q.insert(3, None);
    // No neighbour within two frames.
    let out = maybe_filter_altref(gate(), source.clone(), &q, 8, 8, false, &any_gain);
    assert!(Arc::ptr_eq(&out, &source));
    q.insert(6, Some(other));
    let out = maybe_filter_altref(gate(), source.clone(), &q, 8, 8, false, &any_gain);
    assert_eq!(out.planes[0].at(0, 0), 102);
    for closed in [
        AltrefGate { enabled: false, ..gate() },
        AltrefGate { show_frame: true, ..gate() },
        AltrefGate { intra_only: true, ..gate() },
        AltrefGate { pyramid_level: 1, ..gate() },
    ] {
        let out = maybe_filter_altref(closed, source.clone(), &q, 8, 8, false, &any_gain);
        assert!(Arc::ptr_eq(&out, &source));
    }
}

#[test]
fn nothing_is_asked_of_a_frame_that_is_not_filtered() {
    // No padding, an odd size, and settings that no filter could work with.
    let odd = || {
        let mut p: Plane<u8> = Plane::new(22, 13, 0, 0, 0, 0);
        p.set(21, 12, 255);
        Frame { planes: vec![p] }
    };
    let source = Arc::new(odd());
    let mut q: FrameQueue<u8> = BTreeMap::new();
    let out = maybe_filter_altref(gate(), source.clone(), &q, 99, 7, true, &any_gain);
    assert!(Arc::ptr_eq(&out, &source));
    q.insert(5, Some(Arc::new(frame(|_, _| 1))));
    let off = AltrefGate { enabled: false, input_frameno: u64::MAX, ..gate() };
    let out = maybe_filter_altref(off, source.clone(), &q, 99, 7, true, &any_gain);
    assert!(Arc::ptr_eq(&out, &source));
    // Without neighbours the filter copies.
    let copy = filter_frame(&odd(), &[], 99, 8, true, &any_gain);
    assert!(same(&copy, &odd()));
    assert_eq!(copy.planes[0].cfg, source.planes[0].cfg);
}

#[test]
fn neighbours_come_nearest_first() {
    let numbered = |n: u8| Some(Arc::new(frame(move |_, _| n)));
    let mut q: FrameQueue<u8> = BTreeMap::new();
    for n in [0, 1, 2, 3, 4, 6] {
        q.insert(n, numbered(n as u8));
    }
    let first = |cur| queued_neighbours(&q, cur).iter().map(|f| f.planes[0].at(0, 0)).collect::<Vec<u8>>();
    assert_eq!(first(2), vec![1, 3, 0, 4]);
    assert_eq!(first(4), vec![3, 2, 6]);
    assert_eq!(first(0), vec![1, 2]);
    assert!(first(1000).is_empty());
    assert!(gate().allows());
    assert!(!AltrefGate { pyramid_level: 1, ..gate() }.allows());
}

#[test]
fn weights_at_known_differences() {
    assert_eq!([0, 2, 10, -10, 13, 14, 26754].map(|d| weight(d, 5)), [16, 16, 7, 7, 1, 0, 0]);
    assert_eq!([0, 5, 31].map(|s| weight(26754, s)), [0, 0, 16]);
}

#[test]
fn refinement_finds_half_a_sample() {
    let t = filled(64, 48, 0, 0, |x, _| (4 * x) as u8);
    let n = filled(64, 48, 0, 0, |x, _| (4 * x + 2) as u8);
    let b = FilterBlock { bx: 16, by: 16, bw: 16, bh: 16 };
    assert_eq!(refine_subpel(&t, &n, b, 0, 0, &any_gain, 8).1, -4);
    assert_eq!(refine_subpel(&t, &n, b, 0, 0, &|_: u64, _: u64| false, 8), (0, 0));
    // A match without error is left where it is.
    assert_eq!(refine_subpel(&t, &t, b, 0, 0, &any_gain, 8), (0, 0));
}

#[test]
fn reciprocals() {
    assert_eq!(resolve_divisor_64(1), (14, 16384));
    // 2^22 / 384, rounded.
    assert_eq!(resolve_divisor_64(3), (15, 10923));
    assert_eq!(resolve_divisor_64(u64::MAX), (77, 8192));
    assert_eq!(resolve_divisor_32(65536), (30, 16384));
    for d in [1u64, 7, 255, 256, 257, 1000, 65537, 1 << 40, (1 << 40) + 12345] {
        let (s, y) = resolve_divisor_64(d);
        let (product, one) = (d as i128 * y as i128, 1i128 << s);
        assert!(256 * (product - one).abs() < one);
    }
}

#[test]
fn a_warp_never_reads_padding() {
    let taps: WarpFilters = [[1, -3, 10, 56, 56, 10, -3, 1]; 193];
    let wm = WarpedMotionParams { matrix: [1 << 18, -(1 << 18), 66000, 300, -200, 65000], valid: true, abcd: [448, 320, -192, -512] };
    let predict = |around: u8| {
        let mut p = filled(40, 40, 0, 0, texture);
        for v in -32..72 {
            for u in -32..72 {
                if !((0..40).contains(&u) && (0..40).contains(&v)) {
                    p.set(u, v, around);
                }
            }
        }
        let mut dst: Plane<u8> = Plane::new(32, 32, 0, 0, 0, 0);
        // Blocks in the middle and past every edge.
        for (i, at) in [(8, 8), (0, 0), (36, 0), (60, 60)].into_iter().enumerate() {
            predict_warp(&p, &taps, &mut dst, 8 * i as isize, 0, &wm, at.0, at.1, 8, 8, 0, 0, 8);
        }
        dst.data
    };
    assert_eq!(predict(0), predict(255));
    assert!(predict(0).iter().any(|&v| v > 0));
}

// Neighbours around an 8x8 block at (64, 64), each displaced by a linear model and
// a translation.
fn neighbours(m: [i32; 4], mv: MotionVector) -> Vec<[[i32; 2]; 2]> {
    let mut v = Vec::new();
    for (x, y) in [(-32, -32), (96, -32), (-32, 96), (32, -32), (-32, 32)] {
        let dx = (m[0] * x + m[1] * y) / 256;
        let dy = (m[2] * x + m[3] * y) / 256;
        v.push([[x, y], [x + dx + mv.col as i32, y + dy + mv.row as i32]]);
    }
    v
}

#[test]
fn a_translation_is_solved_up_to_the_reciprocal_table() {
    let mv = MotionVector { row: -12, col: 40 };
    let wm = solve_warp(&neighbours([0; 4], mv), 2, 2, mv, 16, 16);
    assert!(wm.valid);
    assert_eq!(wm.matrix, [334179, -91805, 65439, 0, 0, 65439]);
    assert_eq!(wm.abcd, [-128, 0, 0, -128]);
    assert_eq!((wm.alpha(), wm.beta(), wm.gamma(), wm.delta()), (-128, 0, 0, -128));
}

#[test]
fn a_zoom_is_solved_with_shear_on_both_axes() {
    let mv = MotionVector { row: 0, col: 0 };
    let wm = solve_warp(&neighbours([16, 0, 0, 16], mv), 2, 2, mv, 16, 16);
    assert!(wm.valid);
    assert_eq!(wm.matrix, [-167433, -167433, 68774, -739, -739, 68774]);
    assert_eq!(wm.abcd, [3264, -768, -704, 3200]);
}

#[test]
fn disagreeing_neighbours_do_not_change_the_model() {
    let mv = MotionVector { row: 3, col: -5 };
    let mut pts = neighbours([8, 2, -2, 8], mv);
    pts.insert(1, [[0, -16], [900, 700]]);
    let a = solve_warp(&pts, 2, 2, mv, 16, 16);
    pts[1] = [[0, -16], [-800, 500]];
    let b = solve_warp(&pts, 2, 2, mv, 16, 16);
    assert_eq!(a.matrix, b.matrix);
    pts.remove(1);
    let c = solve_warp(&pts, 2, 2, mv, 16, 16);
    assert_eq!(a.matrix, c.matrix);
    assert_eq!(c.matrix, [-121427, 3672, 66495, 242, -814, 66662]);
    assert_eq!(c.abcd, [960, 256, -832, 1152]);
}

#[test]
fn the_order_of_neighbours_does_not_matter() {
    let mv = MotionVector { row: 3, col: -5 };
    let pts = neighbours([8, 2, -2, 8], mv);
    let a = solve_warp(&pts, 2, 2, mv, 16, 16);
    let mut back = pts.clone();
    back.reverse();
    assert_eq!(solve_warp(&back, 2, 2, mv, 16, 16), a);
    back.swap(0, 3);
    assert_eq!(solve_warp(&back, 2, 2, mv, 16, 16), a);
    // Only the first eight count.
    let mut many = pts.clone();
    many.extend([pts[0]; 3]);
    let eight = solve_warp(&many, 2, 2, mv, 16, 16);
    many.push([[64, 64], [64, 64]]);
    assert_eq!(solve_warp(&many, 2, 2, mv, 16, 16), eight);
    // Where none agrees, the first alone decides.
    let far = [[[-32, -32], [160, -40]], [[96, -32], [300, 160]]];
    assert_eq!(solve_warp(&far, 2, 2, mv, 16, 16), solve_warp(&far[..1], 2, 2, mv, 16, 16));
}

#[test]
fn degenerate_neighbours_are_not_warped() {
    let mv = MotionVector { row: 0, col: 0 };
    // Motion so far from the block's that no neighbour counts in the solve.
    let wm = solve_warp(&[[[0, 0], [2000, 2000]]], 2, 2, mv, 16, 16);
    assert!(!wm.valid);
    assert_eq!(wm.matrix, WarpedMotionParams::default().matrix);
    assert_eq!(wm.abcd, [0; 4]);
}

#[test]
fn an_identity_warp_copies_between_two_taps() {
    let flat: WarpFilters = [[0, 0, 0, 64, 64, 0, 0, 0]; 193];
    let p = filled(64, 64, 0, 0, |x, _| (4 * x) as u8);
    let mut dst: Plane<u8> = Plane::new(16, 16, 0, 0, 0, 0);
    let wm = WarpedMotionParams { valid: true, ..WarpedMotionParams::default() };
    predict_warp(&p, &flat, &mut dst, 0, 0, &wm, 16, 16, 12, 8, 0, 0, 8);
    for x in 0..12 {
        // The mean of two neighbours of a ramp.
        assert_eq!(dst.at(x, 3) as isize, 4 * (16 + x) + 2);
    }
    // Outside the block nothing is written.
    assert_eq!(dst.at(12, 3), 0);
    assert_eq!(dst.at(3, 8), 0);
}

#[test]
fn frame_wide_models() {
    assert_eq!(model_shear([65536, 0, 0, 65536]), 0);
    // A zoom of a twentieth, and one beyond what a block may have.
    assert_eq!(model_shear([68813, 0, 0, 68813]), 3264);
    assert_eq!(model_shear([1 << 40, 0, 0, 65536]), 8192);
    // A small rotation.
    assert_eq!(model_shear([65526, -1144, 1144, 65526]), 1152);
}
