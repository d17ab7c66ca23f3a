use rusty_av1e::plane::{Pixel, Plane, PlaneRegion};
use rusty_av1e::varpart::{build_var_tree, sb_root_variance, VarNode};

// A textured plane and a smoother reference, both larger than a superblock.
fn planes<T: Pixel>() -> (Plane<T>, Plane<T>) {
    let mut src: Plane<T> = Plane::new(128, 128, 0, 0, 8, 8);
    let mut refr: Plane<T> = Plane::new(128, 128, 0, 0, 8, 8);
    let stride = src.cfg.stride;
    for (i, row) in src.data.chunks_mut(stride).enumerate() {
        for (j, p) in row.iter_mut().enumerate() {
            *p = T::cast_from((((i * 7) ^ (j * 13)) & 0xff) as i32);
        }
    }
    for (i, row) in refr.data.chunks_mut(stride).enumerate() {
        for (j, p) in row.iter_mut().enumerate() {
            *p = T::cast_from(((i + j) & 0xff) as i32);
        }
    }
    (src, refr)
}

// `256 * variance` over a `dim` by `dim` square at (ox, oy), edges repeated.
fn brute<T: Pixel>(
    src: &PlaneRegion<'_, T>,
    refr: Option<&PlaneRegion<'_, T>>,
    w: usize,
    h: usize,
    ox: usize,
    oy: usize,
    dim: usize,
) -> i64 {
    let w1 = w.max(1) - 1;
    let h1 = h.max(1) - 1;
    let (mut sum, mut sse) = (0i64, 0i64);
    for y in 0..dim {
        let sy = (oy + y).min(h1);
        for x in 0..dim {
            let sx = (ox + x).min(w1);
            let s = src.at(sx, sy).to_i32() as i64;
            let r = refr.map_or(0, |rr| rr.at(sx, sy).to_i32() as i64);
            let d = s - r;
            sum += d;
            sse += d * d;
        }
    }
    let n = (dim * dim) as u32;
    let log2 = n.trailing_zeros();
    let mean_sq = (sum * sum) >> log2;
    (256 * (sse - mean_sq).max(0)) >> log2
}

fn oracle_inner<T: Pixel>() {
    let (sp, rp) = planes::<T>();
    let src = PlaneRegion::new(&sp, 0, 0, 128, 128);
    let refr = PlaneRegion::new(&rp, 0, 0, 128, 128);

    for &(w, h) in &[(64usize, 64usize), (64, 40), (30, 64), (17, 9)] {
        // Against a reference, and of the source alone.
        for use_ref in [true, false] {
            let r = if use_ref { Some(&refr) } else { None };
            let t = build_var_tree(&src, r, w, h);

            assert_eq!(t.v64.variance(), brute(&src, r, w, h, 0, 0, 64));
            for i in 0..4 {
                let (ox, oy) = ((i % 2) * 32, (i / 2) * 32);
                assert_eq!(t.v32[i].variance(), brute(&src, r, w, h, ox, oy, 32));
            }
            for i in 0..16 {
                let (ox, oy) = ((i % 4) * 16, (i / 4) * 16);
                assert_eq!(t.v16[i].variance(), brute(&src, r, w, h, ox, oy, 16));
            }
            for i in 0..64 {
                let (ox, oy) = ((i % 8) * 8, (i / 8) * 8);
                assert_eq!(t.v8[i].variance(), brute(&src, r, w, h, ox, oy, 8));
            }
        }
    }
}

#[test]
fn tree_matches_brute_force_u8() {
    oracle_inner::<u8>();
}

#[test]
fn tree_matches_brute_force_u16() {
    oracle_inner::<u16>();
}

#[test]
fn zero_residual_when_ref_equals_src() {
    let (sp, _) = planes::<u8>();
    let src = PlaneRegion::new(&sp, 0, 0, 128, 128);
    let t = build_var_tree(&src, Some(&src), 64, 64);
    assert_eq!(t.v64.variance(), 0);
    assert!(t.v8.iter().all(|n| n.variance() == 0));
}

#[test]
fn node_variance_picks_the_node_that_holds_the_sample() {
    let (sp, rp) = planes::<u8>();
    let src = PlaneRegion::new(&sp, 0, 0, 128, 128);
    let refr = PlaneRegion::new(&rp, 0, 0, 128, 128);
    let t = build_var_tree(&src, Some(&refr), 64, 64);
    assert_eq!(t.node_variance(8, 24, 40), t.v8[5 * 8 + 3].variance());
    assert_eq!(t.node_variance(16, 48, 16), t.v16[7].variance());
    assert_eq!(t.node_variance(32, 32, 32), t.v32[3].variance());
    assert_eq!(t.node_variance(64, 0, 0), t.v64.variance());
    assert_eq!(sb_root_variance(&src, Some(&refr), 64, 64), t.v64.variance());
}

#[test]
fn variance_of_two_halves() {
    // Sixty-four samples, half of them 0 and half of them 2.
    let n = VarNode { sum: 64, sse: 128, log2_count: 6 };
    assert_eq!(n.variance(), 256);
    let flat = VarNode { sum: 640, sse: 6400, log2_count: 6 };
    assert_eq!(flat.variance(), 0);
}

#[test]
fn planes_clamp_outside_samples() {
    let mut p: Plane<u8> = Plane::new(16, 8, 1, 0, 4, 2);
    assert_eq!((p.cfg.stride, p.cfg.alloc_height), (24, 12));
    p.set(15, 7, 200);
    p.set(0, 0, 100);
    assert_eq!(p.at(15, 7), 200);
    assert_eq!(p.px(40, 90), 200);
    assert_eq!(p.px(-3, -3), 100);
    assert_eq!(p.px(5, 5), 0);
}
