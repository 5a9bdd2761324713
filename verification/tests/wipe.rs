use photo2video::edit::Wipe;
use photo2video::raster::Raster;
use photo2video::signed::{from_bits, Signed};
use photo2video::wipe::apply_wipe;

fn num(v: f32) -> Signed {
    from_bits(v.to_bits()).unwrap()
}

fn solid(w: u32, h: u32, c: [u8; 3]) -> Raster {
    let mut d = Vec::new();
    for _ in 0..w * h {
        d.extend_from_slice(&c);
    }
    Raster { w: w as usize, h: h as usize, d }
}

fn at(img: &Raster, x: u32, y: u32) -> [u8; 3] {
    let i = (y as usize * img.w + x as usize) * 3;
    [img.d[i], img.d[i + 1], img.d[i + 2]]
}

fn put(img: &mut Raster, x: u32, y: u32, c: [u8; 3]) {
    let i = (y as usize * img.w + x as usize) * 3;
    img.d[i..i + 3].copy_from_slice(&c);
}

fn copy(img: &Raster) -> Raster {
    Raster { w: img.w, h: img.h, d: img.d.clone() }
}

fn sky_with_blob(w: u32, h: u32, cx: f32, cy: f32, r: f32) -> Raster {
    let mut img = solid(w, h, [12, 14, 20]);
    for y in 0..h {
        for x in 0..w {
            let (dx, dy) = (x as f32 + 0.5 - cx, y as f32 + 0.5 - cy);
            let d = (dx * dx + dy * dy).sqrt();
            if d < r {
                let k = (1.0 - d / r).min(1.0);
                let mut p = at(&img, x, y);
                for c in 0..3 {
                    p[c] = (p[c] as f32 + k * 150.0).min(255.0) as u8;
                }
                put(&mut img, x, y, p);
            }
        }
    }
    img
}

fn stroke(pts: &[[f32; 2]], radius: f32, keep_detail: bool) -> Wipe {
    Wipe {
        pts: pts.iter().map(|p| (num(p[0]), num(p[1]))).collect(),
        radius: num(radius),
        keep_detail,
        ..Wipe::default()
    }
}

#[test]
fn wipe_density_caps_how_much_gets_cleared() {
    let at_center = |density: f32| {
        let mut img = sky_with_blob(120, 90, 60.0, 45.0, 12.0);
        let w = Wipe { density: num(density), ..stroke(&[[0.5, 0.5]], 18.0 / 120.0, false) };
        apply_wipe(&mut img, &vec![w]);
        at(&img, 60, 45)[0] as i32
    };
    let untouched = at(&sky_with_blob(120, 90, 60.0, 45.0, 12.0), 60, 45)[0] as i32;
    let (full, half) = (at_center(1.0), at_center(0.5));
    assert!(full < half && half < untouched, "full {full}, half {half}, before {untouched}");
}

#[test]
fn wipe_feather_softens_the_edge_without_moving_it() {
    let sample = |feather: f32, x: u32| {
        let mut img = sky_with_blob(160, 160, 80.0, 80.0, 60.0);
        let w = Wipe { feather: num(feather), ..stroke(&[[0.5, 0.5]], 40.0 / 160.0, false) };
        apply_wipe(&mut img, &vec![w]);
        at(&img, x, 80)[0] as i32
    };
    assert!((sample(0.0, 80) - sample(1.0, 80)).abs() <= 3);
    let (hard, soft) = (sample(0.0, 112), sample(1.0, 112));
    assert!(hard < soft, "hard {hard}, soft {soft}");
}

#[test]
fn wipe_removes_the_blob_and_leaves_the_rest_alone() {
    let mut img = sky_with_blob(120, 90, 60.0, 45.0, 12.0);
    let before = copy(&img);
    apply_wipe(&mut img, &vec![stroke(&[[0.5, 0.5]], 18.0 / 120.0, false)]);
    let mid = at(&img, 60, 45);
    assert!(mid.iter().all(|&v| v < 30), "{mid:?}");
    for (x, y) in [(0u32, 0u32), (119, 0), (0, 89), (119, 89)] {
        assert_eq!(at(&img, x, y), at(&before, x, y));
    }
}

#[test]
fn wipe_works_the_same_on_a_preview_sized_copy() {
    let same = |w: u32, h: u32| {
        let mut img = sky_with_blob(w, h, w as f32 * 0.5, h as f32 * 0.5, w as f32 * 0.1);
        apply_wipe(&mut img, &vec![stroke(&[[0.5, 0.5]], 0.15, false)]);
        at(&img, w / 2, h / 2)
    };
    let small = same(120, 90);
    let big = same(480, 360);
    for c in 0..3 {
        assert!((small[c] as i32 - big[c] as i32).abs() <= 6, "{small:?} {big:?}");
    }
}

#[test]
fn degenerate_wipes_do_nothing() {
    let mut img = sky_with_blob(40, 30, 20.0, 15.0, 6.0);
    let before = copy(&img);
    apply_wipe(&mut img, &vec![stroke(&[], 0.2, false), stroke(&[[0.5, 0.5]], 0.0, true)]);
    assert_eq!(img.d, before.d);
}

#[test]
fn a_stroke_wipes_along_its_whole_path() {
    let mut img = solid(160, 60, [10, 10, 14]);
    for y in 20..40 {
        for x in 20..140 {
            put(&mut img, x, y, [180, 140, 160]);
        }
    }
    apply_wipe(
        &mut img,
        &vec![stroke(&[[0.15, 0.5], [0.5, 0.5], [0.85, 0.5]], 20.0 / 160.0, false)],
    );
    for x in [30u32, 80, 130] {
        let p = at(&img, x, 30);
        assert!(p.iter().all(|&v| v < 40), "x={x}: {p:?}");
    }
}

#[test]
fn keep_detail_saves_the_streaks_but_still_drops_the_smoke() {
    const N: u32 = 1200;
    let wiped = |keep: bool| {
        let mut img = sky_with_blob(N, N, 600.0, 600.0, 260.0);
        for x in 250..950 {
            for y in 598..601 {
                put(&mut img, x, y, [250, 240, 220]);
            }
        }
        apply_wipe(&mut img, &vec![stroke(&[[0.5, 0.5]], 0.22, keep)]);
        img
    };
    let (kept, gone) = (wiped(true), wiped(false));
    let on_line = at(&kept, 600, 599);
    let beside = at(&kept, 600, 700);
    assert!(
        (0..3).all(|c| on_line[c] as i32 > beside[c] as i32 + 40),
        "on the line {on_line:?}, beside it {beside:?}"
    );
    assert!(at(&gone, 600, 599).iter().all(|&v| v < 60), "{:?}", at(&gone, 600, 599));
    for img in [&kept, &gone] {
        let smoke = at(img, 600, 700);
        assert!(smoke.iter().all(|&v| v < 45), "{smoke:?}");
    }
}

#[test]
fn wipes_apply_the_same_split_as_in_one_go() {
    let base = sky_with_blob(600, 400, 300.0, 200.0, 90.0);
    let mk = |x: f32, y: f32, keep: bool| stroke(&[[x, y], [x + 0.05, y + 0.03]], 0.06, keep);
    let first = || vec![mk(0.35, 0.4, true), mk(0.5, 0.5, false)];
    let second = || vec![mk(0.45, 0.35, true)];
    let mut once = copy(&base);
    let mut all = first();
    all.extend(second());
    apply_wipe(&mut once, &all);
    let mut split = copy(&base);
    apply_wipe(&mut split, &first());
    apply_wipe(&mut split, &second());
    assert_eq!(once.d, split.d);
}

#[test]
fn a_burst_core_keeps_its_brightness() {
    const N: u32 = 1200;
    let mut img = sky_with_blob(N, N, 600.0, 600.0, 140.0);
    for y in 0..N {
        for x in 0..N {
            let (dx, dy) = (x as f32 - 600.0, y as f32 - 600.0);
            let d = (dx * dx + dy * dy).sqrt();
            if d < 45.0 {
                let k = (1.0 - d / 45.0).min(1.0);
                let mut p = at(&img, x, y);
                for c in 0..3 {
                    p[c] = (p[c] as f32 + k * 120.0).min(255.0) as u8;
                }
                put(&mut img, x, y, p);
            }
        }
    }
    let core_before = at(&img, 600, 600);
    apply_wipe(&mut img, &vec![stroke(&[[0.5, 0.5]], 0.2, true)]);
    let core = at(&img, 600, 600);
    for c in 0..3 {
        assert!(core[c] as i32 >= core_before[c] as i32 - 3, "{core_before:?} {core:?}");
    }
    let smoke = at(&img, 600, 700);
    assert!(smoke.iter().all(|&v| v < 45), "{smoke:?}");
}

#[test]
fn tiny_photos_are_not_wiped() {
    let mut img = solid(1, 5, [200, 100, 50]);
    apply_wipe(&mut img, &vec![stroke(&[[0.5, 0.5]], 0.5, false)]);
    assert_eq!(img.d, solid(1, 5, [200, 100, 50]).d);
}

#[test]
fn a_stroke_that_leaves_nothing_open_changes_nothing() {
    let mut img = sky_with_blob(20, 16, 10.0, 8.0, 5.0);
    let before = copy(&img);
    apply_wipe(&mut img, &vec![stroke(&[[0.5, 0.5]], 3.0, false)]);
    assert_eq!(img.d, before.d);
}

#[test]
fn wiping_never_brightens() {
    let mut img = sky_with_blob(90, 70, 40.0, 30.0, 25.0);
    for i in 0..img.d.len() {
        img.d[i] = img.d[i].wrapping_mul((i % 7 + 1) as u8);
    }
    let before = copy(&img);
    apply_wipe(&mut img, &vec![stroke(&[[0.3, 0.3], [0.6, 0.7]], 0.2, true)]);
    assert!(img.d != before.d);
    assert!(img.d.iter().zip(&before.d).all(|(a, b)| a <= b));
}

struct Stroke {
    pts: Vec<[f32; 2]>,
    radius: f32,
    keep_detail: bool,
    feather: f32,
    flow: f32,
    density: f32,
}

#[test]
fn wiping_rounds_as_floats_do() {
    let cases = [
        (90, 60, vec![[0.4, 0.5]], 0.15, true, 0.45, 1.0, 1.0),
        (90, 60, vec![[0.2, 0.3], [0.7, 0.6]], 0.1, true, 0.8, 0.4, 0.9),
        (61, 83, vec![[0.9, 0.1], [0.95, 0.6], [0.5, 0.9]], 0.12, false, 0.0, 0.7, 1.0),
        (120, 40, vec![[-0.1, 0.5], [1.2, 0.4]], 0.08, true, 1.0, 0.25, 0.6),
        (200, 150, vec![[0.5, 0.5], [0.52, 0.55]], 0.3, true, 0.5, 1.0, 0.75),
    ];
    for (k, (w, h, pts, radius, keep_detail, feather, flow, density)) in cases.into_iter().enumerate() {
        let mut img = sky_with_blob(w, h, w as f32 * 0.5, h as f32 * 0.5, w as f32 * 0.3);
        let mut seed = 12345u32;
        for v in img.d.iter_mut() {
            seed = seed.wrapping_mul(1664525).wrapping_add(1013904223);
            *v = v.saturating_add((seed >> 24) as u8 / 3);
        }
        let mut floats = copy(&img);
        let s = Stroke { pts: pts.clone(), radius, keep_detail, feather, flow, density };
        wipe_in_floats(&mut floats, &s);
        let w = Wipe {
            feather: num(feather),
            flow: num(flow),
            density: num(density),
            ..stroke(&pts, radius, keep_detail)
        };
        apply_wipe(&mut img, &vec![w]);
        assert!(img.d == floats.d, "case {k}");
    }
}

const LUMA: [f32; 3] = [0.299, 0.587, 0.114];

fn luma_255(c: [f32; 3]) -> f32 {
    c[0] * LUMA[0] + c[1] * LUMA[1] + c[2] * LUMA[2]
}

const WIPE_GRID: usize = 64;

const WIPE_SMOKE_MAX: (f32, f32) = (170.0, 210.0);

const WIPE_TRAIL_REL: (f32, f32) = (0.10, 0.30);

const WIPE_CONTRAST_FLOOR: f32 = 40.0;

fn smoothstep(e0: f32, e1: f32, v: f32) -> f32 {
    if e1 <= e0 {
        return if v >= e1 { 1.0 } else { 0.0 };
    }
    let t = ((v - e0) / (e1 - e0)).clamp(0.0, 1.0);
    t * t * (3.0 - 2.0 * t)
}

fn box_blur(src: &[f32], w: usize, h: usize, r: usize) -> Vec<f32> {
    let n = (2 * r + 1) as f32;
    let mut tmp = vec![0.0f32; src.len()];
    for y in 0..h {
        let row = &src[y * w..y * w + w];
        let mut sum = row[0] * r as f32;
        for i in 0..=r {
            sum += row[i.min(w - 1)];
        }
        for x in 0..w {
            tmp[y * w + x] = sum / n;
            sum += row[(x + r + 1).min(w - 1)] - row[x.saturating_sub(r)];
        }
    }
    let mut out = vec![0.0f32; src.len()];
    for x in 0..w {
        let at = |y: usize| tmp[y.min(h - 1) * w + x];
        let mut sum = at(0) * r as f32;
        for i in 0..=r {
            sum += at(i);
        }
        for y in 0..h {
            out[y * w + x] = sum / n;
            sum += at(y + r + 1) - at(y.saturating_sub(r));
        }
    }
    out
}

fn wipe_in_floats(img: &mut Raster, wipe: &Stroke) {
    let (iw, ih) = (img.w as i32, img.h as i32);
    if iw < 2 || ih < 2 {
        return;
    }
    let long = iw.max(ih) as f32;
    let r = (wipe.radius * long).max(1.0);

    let pad = (r * 0.9).max(4.0);
    let pts: Vec<[f32; 2]> = wipe
        .pts
        .iter()
        .map(|p| [p[0] * iw as f32, p[1] * ih as f32])
        .collect();
    let (mut lx, mut ly, mut hx, mut hy) = (f32::MAX, f32::MAX, f32::MIN, f32::MIN);
    for p in &pts {
        lx = lx.min(p[0]);
        hx = hx.max(p[0]);
        ly = ly.min(p[1]);
        hy = hy.max(p[1]);
    }
    let x0 = ((lx - r - pad).floor() as i32).clamp(0, iw - 1);
    let y0 = ((ly - r - pad).floor() as i32).clamp(0, ih - 1);
    let x1 = ((hx + r + pad).ceil() as i32).clamp(0, iw - 1);
    let y1 = ((hy + r + pad).ceil() as i32).clamp(0, ih - 1);
    let (bw, bh) = ((x1 - x0 + 1) as usize, (y1 - y0 + 1) as usize);

    let mut cov = vec![0f32; bw * bh];

    let inner = r * (1.0 - wipe.feather.clamp(0.0, 1.0));
    let flow = wipe.flow.clamp(0.0, 1.0);
    let step = (r * 0.3).max(0.75);
    let mut prev: Option<[f32; 2]> = None;
    for p in &pts {
        let now = [p[0] - x0 as f32, p[1] - y0 as f32];
        match prev {
            None => stamp_disc(&mut cov, bw, bh, now, r, inner, flow),
            Some(q) => {
                let (dx, dy) = (now[0] - q[0], now[1] - q[1]);
                let n = ((dx * dx + dy * dy).sqrt() / step).ceil().max(1.0) as usize;
                for i in 1..=n {
                    let t = i as f32 / n as f32;
                    stamp_disc(&mut cov, bw, bh, [q[0] + dx * t, q[1] + dy * t], r, inner, flow);
                }
            }
        }
        prev = Some(now);
    }

    let cell = bw.max(bh).div_ceil(WIPE_GRID).max(1);
    let (gw, gh) = (bw.div_ceil(cell), bh.div_ceil(cell));
    let mut sum = vec![[0f32; 3]; gw * gh];
    let mut known = vec![0f32; gw * gh];
    let mut total = vec![0f32; gw * gh];
    for y in 0..bh {
        for x in 0..bw {
            let gi = (y / cell) * gw + x / cell;
            total[gi] += 1.0;
            if cov[y * bw + x] <= 0.002 {
                let px = at(img, (x0 + x as i32) as u32, (y0 + y as i32) as u32);
                for c in 0..3 {
                    sum[gi][c] += px[c] as f32;
                }
                known[gi] += 1.0;
            }
        }
    }

    let mut val = vec![[0f32; 3]; gw * gh];
    let mut solid = vec![false; gw * gh];
    for i in 0..gw * gh {
        if known[i] > total[i] * 0.5 {
            solid[i] = true;
            for c in 0..3 {
                val[i][c] = sum[i][c] / known[i];
            }
        }
    }
    let anchors: Vec<usize> = (0..gw * gh).filter(|&i| solid[i]).collect();
    if anchors.is_empty() {
        return;
    }

    let dark = {
        const R: i32 = 3;
        let mut out = val.clone();
        for gy in 0..gh as i32 {
            for gx in 0..gw as i32 {
                let i = (gy * gw as i32 + gx) as usize;
                if !solid[i] {
                    continue;
                }
                let mut best = val[i];
                let mut best_y = luma_255(best);
                for ny in (gy - R).max(0)..=(gy + R).min(gh as i32 - 1) {
                    for nx in (gx - R).max(0)..=(gx + R).min(gw as i32 - 1) {
                        let j = (ny * gw as i32 + nx) as usize;
                        if !solid[j] {
                            continue;
                        }
                        let y = luma_255(val[j]);
                        if y < best_y {
                            best_y = y;
                            best = val[j];
                        }
                    }
                }
                out[i] = best;
            }
        }
        out
    };

    for gy in 0..gh {
        for gx in 0..gw {
            let i = gy * gw + gx;
            if solid[i] {
                continue;
            }
            let (mut acc, mut wsum) = ([0f32; 3], 0f32);
            for &j in &anchors {
                let dx = (j % gw) as f32 - gx as f32;
                let dy = (j / gw) as f32 - gy as f32;
                let d2 = dx * dx + dy * dy;
                let w = 1.0 / (d2 * d2 + 1e-3);
                wsum += w;
                for c in 0..3 {
                    acc[c] += dark[j][c] * w;
                }
            }
            for c in 0..3 {
                val[i][c] = acc[c] / wsum;
            }
        }
    }

    let veil = if !wipe.keep_detail {
        None
    } else {
        let r_blur = ((iw.max(ih) as f32 / 300.0).round() as usize).clamp(1, 60);
        let n = bw * bh;
        let px = |x: usize, y: usize| at(img, (x0 + x as i32) as u32, (y0 + y as i32) as u32);
        let mut y_plane = vec![0f32; n];
        for y in 0..bh {
            for x in 0..bw {
                let p = px(x, y);
                y_plane[y * bw + x] =
                    p[0] as f32 * LUMA[0] + p[1] as f32 * LUMA[1] + p[2] as f32 * LUMA[2];
            }
        }

        let mean = box_blur(&y_plane, bw, bh, r_blur);
        let mask: Vec<f32> = (0..n)
            .map(|i| if y_plane[i] <= mean[i] + 1.0 { 1.0 } else { 0.0 })
            .collect();
        let den = box_blur(&mask, bw, bh, r_blur);
        let mut out = vec![[0f32; 3]; n];
        let mut plane = vec![0f32; n];
        for c in 0..3 {
            for y in 0..bh {
                for x in 0..bw {
                    plane[y * bw + x] = px(x, y)[c] as f32 * mask[y * bw + x];
                }
            }
            let num = box_blur(&plane, bw, bh, r_blur);
            for i in 0..n {
                out[i][c] = num[i] / den[i].max(0.02);
            }
        }

        let mcell = ((iw.max(ih) as f32 * 0.0025).round() as usize).clamp(2, 64);
        let (mw, mh) = (bw.div_ceil(mcell), bh.div_ceil(mcell));
        let mut cmin = vec![[0f32; 3]; mw * mh];
        let mut cluma = vec![f32::MAX; mw * mh];
        for y in 0..bh {
            for x in 0..bw {
                let i = (y / mcell) * mw + x / mcell;
                let l = y_plane[y * bw + x];
                if l < cluma[i] {
                    cluma[i] = l;
                    let p = px(x, y);
                    cmin[i] = [p[0] as f32, p[1] as f32, p[2] as f32];
                }
            }
        }

        let mut sm = cmin.clone();
        for gy in 0..mh {
            for gx in 0..mw {
                let (mut acc, mut cnt) = ([0f32; 3], 0f32);
                for ny in gy.saturating_sub(1)..=(gy + 1).min(mh - 1) {
                    for nx in gx.saturating_sub(1)..=(gx + 1).min(mw - 1) {
                        for c in 0..3 {
                            acc[c] += cmin[ny * mw + nx][c];
                        }
                        cnt += 1.0;
                    }
                }
                for c in 0..3 {
                    sm[gy * mw + gx][c] = acc[c] / cnt;
                }
            }
        }

        for y in 0..bh {
            for x in 0..bw {
                let fx = (x as f32 + 0.5) / mcell as f32 - 0.5;
                let fy = (y as f32 + 0.5) / mcell as f32 - 0.5;
                let (gx0, gy0) = (fx.floor(), fy.floor());
                let (tx, ty) = (fx - gx0, fy - gy0);
                let cell_at = |gx: f32, gy: f32| -> [f32; 3] {
                    let gx = (gx.max(0.0) as usize).min(mw - 1);
                    let gy = (gy.max(0.0) as usize).min(mh - 1);
                    sm[gy * mw + gx]
                };
                let (c00, c10) = (cell_at(gx0, gy0), cell_at(gx0 + 1.0, gy0));
                let (c01, c11) = (cell_at(gx0, gy0 + 1.0), cell_at(gx0 + 1.0, gy0 + 1.0));
                let mut low = [0f32; 3];
                for c in 0..3 {
                    let top = c00[c] + (c10[c] - c00[c]) * tx;
                    let bot = c01[c] + (c11[c] - c01[c]) * tx;
                    low[c] = top + (bot - top) * ty;
                }
                let v = &mut out[y * bw + x];
                if luma_255(low) < luma_255(*v) {
                    *v = low;
                }

                let over = smoothstep(WIPE_SMOKE_MAX.0, WIPE_SMOKE_MAX.1, luma_255(*v));
                if over > 0.0 {
                    for c in 0..3 {
                        v[c] *= 1.0 - over;
                    }
                }
            }
        }
        Some(out)
    };

    let density = wipe.density.clamp(0.0, 1.0);
    for y in 0..bh {
        for x in 0..bw {
            let a = cov[y * bw + x] * density;
            if a <= 0.002 {
                continue;
            }
            let fx = (x as f32 + 0.5) / cell as f32 - 0.5;
            let fy = (y as f32 + 0.5) / cell as f32 - 0.5;
            let (gx0, gy0) = (fx.floor(), fy.floor());
            let (tx, ty) = (fx - gx0, fy - gy0);
            let cell_at = |gx: f32, gy: f32| -> [f32; 3] {
                let gx = (gx.max(0.0) as usize).min(gw - 1);
                let gy = (gy.max(0.0) as usize).min(gh - 1);
                val[gy * gw + gx]
            };
            let (c00, c10) = (cell_at(gx0, gy0), cell_at(gx0 + 1.0, gy0));
            let (c01, c11) = (cell_at(gx0, gy0 + 1.0), cell_at(gx0 + 1.0, gy0 + 1.0));
            let keep = veil.as_ref().map(|v| v[y * bw + x]);
            let (qx, qy) = ((x0 + x as i32) as u32, (y0 + y as i32) as u32);
            let mut px = at(img, qx, qy);

            let hold = keep.map_or(0.0, |v| {
                let vy = luma_255(v);
                let oy = luma_255([px[0] as f32, px[1] as f32, px[2] as f32]);
                let rel = (oy - vy).max(0.0) / (vy + WIPE_CONTRAST_FLOOR);
                smoothstep(WIPE_TRAIL_REL.0, WIPE_TRAIL_REL.1, rel)
            });
            for c in 0..3 {
                let top = c00[c] + (c10[c] - c00[c]) * tx;
                let bot = c01[c] + (c11[c] - c01[c]) * tx;
                let o = px[c] as f32;
                let bg = top + (bot - top) * ty;

                let target = match keep {
                    Some(v) => o - (v[c] - bg).max(0.0) * (1.0 - hold),
                    None => bg,
                };
                let target = target.min(o);
                px[c] = (o + (target - o) * a).clamp(0.0, 255.0).round() as u8;
            }
            put(img, qx, qy, px);
        }
    }
}

fn stamp_disc(cov: &mut [f32], bw: usize, bh: usize, at: [f32; 2], r: f32, inner: f32, flow: f32) {
    let lo_x = (at[0] - r).floor().max(0.0) as usize;
    let lo_y = (at[1] - r).floor().max(0.0) as usize;
    let hi_x = ((at[0] + r).ceil().max(0.0) as usize).min(bw.saturating_sub(1));
    let hi_y = ((at[1] + r).ceil().max(0.0) as usize).min(bh.saturating_sub(1));
    if lo_x > hi_x || lo_y > hi_y {
        return;
    }
    for y in lo_y..=hi_y {
        let dy = y as f32 + 0.5 - at[1];
        for x in lo_x..=hi_x {
            let dx = x as f32 + 0.5 - at[0];
            let d = (dx * dx + dy * dy).sqrt();
            let a = if d <= inner {
                1.0
            } else if d >= r {
                continue;
            } else {
                let t = (r - d) / (r - inner).max(1e-3);
                t * t * (3.0 - 2.0 * t)
            };
            let slot = &mut cov[y * bw + x];
            if flow >= 1.0 {
                if a > *slot {
                    *slot = a;
                }
            } else {
                *slot += a * flow * (1.0 - *slot);
            }
        }
    }
}
