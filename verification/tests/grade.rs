use photo2video::grade::{apply_grade, apply_grade_masked, Grade, Tones};
use photo2video::raster::Raster;
use photo2video::signed::{from_bits, Signed};
use photo2video::single::{share_from_bits, Single};
use photo2video::spread::box_blur;

fn num(v: f32) -> Signed {
    from_bits(v.to_bits()).unwrap()
}

fn float(v: Signed) -> f32 {
    let size = v.size.m as f64 * (v.size.e as f64).exp2();
    (if v.neg { -size } else { size }) as f32
}

fn solid(w: usize, h: usize, c: [u8; 3]) -> Raster {
    let mut d = Vec::new();
    for _ in 0..w * h {
        d.extend_from_slice(&c);
    }
    Raster { w, h, d }
}

fn none() -> Grade {
    Grade {
        temp: 0,
        tint: 0,
        exposure: 0,
        contrast: 0,
        brightness: 0,
        shadows: 0,
        whites: 0,
        blacks: 0,
        dehaze: 0,
        vibrance: 0,
        saturation: 0,
        clarity: 0,
    }
}

fn kelvin_rgb(k: f32) -> [f32; 3] {
    let t = k / 100.0;
    let (r, g) = if t <= 66.0 {
        (1.0, (0.390_081_58 * t.ln() - 0.631_841_45).clamp(0.0, 1.0))
    } else {
        let u = (t - 60.0).max(1e-6);
        (
            (1.292_936_2 * u.powf(-0.133_204_76)).clamp(0.0, 1.0),
            (1.129_890_9 * u.powf(-0.075_514_85)).clamp(0.0, 1.0),
        )
    };
    let b = if t >= 66.0 {
        1.0
    } else if t <= 19.0 {
        0.0
    } else {
        (0.543_206_8 * (t - 10.0).ln() - 1.196_254_1).clamp(0.0, 1.0)
    };
    [r, g, b]
}

fn curve_points(g: &Grade) -> Vec<(f32, f32)> {
    let mut pts: Vec<(f32, f32)> = Vec::new();
    if g.blacks < 0 {
        pts.push((0.0, 0.0));
        pts.push((-g.blacks as f32 / 100.0 * 0.12, 0.0));
    } else {
        pts.push((0.0, g.blacks as f32 / 100.0 * 0.15));
    }
    if g.shadows != 0 {
        pts.push((0.25, (0.25 + g.shadows as f32 / 100.0 * 0.15).clamp(0.0, 1.0)));
    }
    if g.whites > 0 {
        pts.push((1.0 - g.whites as f32 / 100.0 * 0.15, 1.0));
        pts.push((1.0, 1.0));
    } else {
        pts.push((1.0, 1.0 + g.whites as f32 / 100.0 * 0.15));
    }
    pts
}

fn spline(pts: &[(f32, f32)], x: f32) -> f32 {
    let (mut xs, mut ys): (Vec<f32>, Vec<f32>) = (Vec::new(), Vec::new());
    for &(x, y) in pts {
        if xs.last().is_none_or(|l| x - l > 1e-5) {
            xs.push(x);
            ys.push(y);
        }
    }
    let n = xs.len();
    let mut y2 = vec![0.0f32; n];
    if n >= 3 {
        let mut u = vec![0.0f32; n];
        for i in 1..n - 1 {
            let sig = (xs[i] - xs[i - 1]) / (xs[i + 1] - xs[i - 1]);
            let p = sig * y2[i - 1] + 2.0;
            y2[i] = (sig - 1.0) / p;
            let d = (ys[i + 1] - ys[i]) / (xs[i + 1] - xs[i])
                - (ys[i] - ys[i - 1]) / (xs[i] - xs[i - 1]);
            u[i] = (6.0 * d / (xs[i + 1] - xs[i - 1]) - sig * u[i - 1]) / p;
        }
        for k in (0..n - 1).rev() {
            y2[k] = y2[k] * y2[k + 1] + u[k];
        }
    }
    let mut hi = 1;
    while hi < n - 1 && xs[hi] < x {
        hi += 1;
    }
    let lo = hi - 1;
    let h = xs[hi] - xs[lo];
    let a = (xs[hi] - x) / h;
    let b = (x - xs[lo]) / h;
    a * ys[lo] + b * ys[hi] + ((a * a * a - a) * y2[lo] + (b * b * b - b) * y2[hi]) * h * h / 6.0
}

fn lut(g: &Grade) -> Vec<f32> {
    let pts = curve_points(g);
    (0..=1024).map(|i| spline(&pts, i as f32 / 1024.0).clamp(0.0, 1.0)).collect()
}

fn tones(g: &Grade) -> Tones {
    let m = kelvin_rgb((6500.0 - g.temp as f32 * 35.0).clamp(1000.0, 40000.0));
    Tones::new(
        g,
        (num(m[0]), num(m[1]), num(m[2])),
        num((g.exposure as f32 / 100.0 * 3.0).exp2()),
    )
}

fn grade(img: &mut Raster, g: &Grade) {
    apply_grade(img, g, &tones(g));
}

fn luma(c: [f32; 3]) -> f32 {
    c[0] * 0.299 + c[1] * 0.587 + c[2] * 0.114
}

fn clamp01(v: f32) -> f32 {
    v.clamp(0.0, 1.0)
}

fn blur_in_floats(src: &[f32], w: usize, h: usize, r: usize) -> Vec<f32> {
    let n = (2 * r + 1) as f32;
    let mut tmp = vec![0.0f32; src.len()];
    for y in 0..h {
        let row = &src[y * w..y * w + w];
        let mut sum = row[0] * r as f32;
        for i in 0..=r {
            sum += row[i.min(w - 1)];
        }
        for x in 0..w {
            tmp[y * w + x] = sum / n;
            sum += row[(x + r + 1).min(w - 1)] - row[x.saturating_sub(r)];
        }
    }
    let mut out = vec![0.0f32; src.len()];
    for x in 0..w {
        let at = |y: usize| tmp[y.min(h - 1) * w + x];
        let mut sum = at(0) * r as f32;
        for i in 0..=r {
            sum += at(i);
        }
        for y in 0..h {
            out[y * w + x] = sum / n;
            sum += at(y + r + 1) - at(y.saturating_sub(r));
        }
    }
    out
}

fn in_floats(img: &Raster, adj: &Grade) -> Vec<u8> {
    let (w, h) = (img.w, img.h);
    let mut px: Vec<[f32; 3]> = img
        .d
        .chunks(3)
        .map(|p| [p[0] as f32 / 255.0, p[1] as f32 / 255.0, p[2] as f32 / 255.0])
        .collect();
    if adj.temp != 0 {
        let m = kelvin_rgb((6500.0 - adj.temp as f32 * 35.0).clamp(1000.0, 40000.0));
        for p in &mut px {
            *p = [clamp01(p[0] * m[0]), clamp01(p[1] * m[1]), clamp01(p[2] * m[2])];
        }
    }
    if adj.tint != 0 {
        let gm = -adj.tint as f32 / 100.0 * 0.3;
        for p in &mut px {
            let mid = 1.0 - (2.0 * luma(*p) - 1.0).abs();
            let d = gm * mid * 0.5;
            *p = [clamp01(p[0] - d), clamp01(p[1] + d * 2.0), clamp01(p[2] - d)];
        }
    }
    if adj.exposure != 0 {
        let gain = (adj.exposure as f32 / 100.0 * 3.0).exp2();
        for p in &mut px {
            *p = [clamp01(p[0] * gain), clamp01(p[1] * gain), clamp01(p[2] * gain)];
        }
    }
    if adj.contrast != 0 || adj.brightness != 0 || adj.saturation != 0 {
        let c = 1.0 + adj.contrast as f32 * 0.008;
        let b = adj.brightness as f32 * 0.004 * (255.0 / 219.0);
        let s = (1.0 + adj.saturation as f32 * 0.01).max(0.0);
        for p in &mut px {
            let y = luma(*p);
            let ny = c * (y - 0.5) + 0.5 + b;
            *p = [
                clamp01(ny + (p[0] - y) * s),
                clamp01(ny + (p[1] - y) * s),
                clamp01(ny + (p[2] - y) * s),
            ];
        }
    }
    if adj.shadows != 0 || adj.whites != 0 || adj.blacks != 0 {
        let lut = lut(adj);
        let curve = |v: f32| {
            let t = clamp01(v) * 1024.0;
            let i = (t as usize).min(1023);
            lut[i] + (lut[i + 1] - lut[i]) * (t - i as f32)
        };
        for p in &mut px {
            *p = [curve(p[0]), curve(p[1]), curve(p[2])];
        }
    }
    if adj.dehaze != 0 {
        let k = adj.dehaze.abs() as f32 / 100.0 * 0.22;
        if adj.dehaze > 0 {
            let g = 1.0 / (1.0 - k);
            for p in &mut px {
                *p = [
                    clamp01((p[0] - k) * g),
                    clamp01((p[1] - k) * g),
                    clamp01((p[2] - k) * g),
                ];
            }
        } else {
            for p in &mut px {
                *p = [
                    clamp01(k + p[0] * (1.0 - k)),
                    clamp01(k + p[1] * (1.0 - k)),
                    clamp01(k + p[2] * (1.0 - k)),
                ];
            }
        }
    }
    if adj.vibrance != 0 {
        let k = adj.vibrance as f32 / 100.0 * 2.0;
        for p in &mut px {
            let mx = p[0].max(p[1]).max(p[2]);
            let mn = p[0].min(p[1]).min(p[2]);
            let g = (1.0 + k * (1.0 + (mx - mn) * k.signum())).max(0.0);
            let y = p[0] * 0.2126 + p[1] * 0.7152 + p[2] * 0.0722;
            *p = [
                clamp01(y + (p[0] - y) * g),
                clamp01(y + (p[1] - y) * g),
                clamp01(y + (p[2] - y) * g),
            ];
        }
    }
    if adj.clarity != 0 {
        let amount = adj.clarity as f32 * 0.015;
        let r = ((w.max(h) as f32 / 300.0).round() as usize).clamp(1, 60);
        let y: Vec<f32> = px.iter().map(|p| luma(*p)).collect();
        let blur = blur_in_floats(&y, w, h, r);
        for (p, (y0, yb)) in px.iter_mut().zip(y.iter().zip(blur.iter())) {
            let d = (y0 - yb) * amount;
            *p = [clamp01(p[0] + d), clamp01(p[1] + d), clamp01(p[2] + d)];
        }
    }
    px.iter().flat_map(|p| p.map(|v| (v * 255.0 + 0.5) as u8)).collect()
}

fn noise(w: usize, h: usize) -> Raster {
    let mut seed: u32 = 99;
    let mut d = Vec::new();
    for _ in 0..w * h * 3 {
        seed = seed.wrapping_mul(1664525).wrapping_add(1013904223);
        d.push((seed >> 24) as u8);
    }
    Raster { w, h, d }
}

#[test]
fn grading_agrees_with_single_precision() {
    let img = noise(23, 17);
    let mut all = Vec::new();
    for v in [-100, -35, 12, 70, 100] {
        all.push(Grade { temp: v, ..none() });
        all.push(Grade { tint: v, ..none() });
        all.push(Grade { exposure: v, ..none() });
        all.push(Grade { contrast: v, ..none() });
        all.push(Grade { brightness: v, ..none() });
        all.push(Grade { saturation: v, ..none() });
        all.push(Grade { shadows: v, ..none() });
        all.push(Grade { whites: v, ..none() });
        all.push(Grade { blacks: v, ..none() });
        all.push(Grade { dehaze: v, ..none() });
        all.push(Grade { vibrance: v, ..none() });
        all.push(Grade { clarity: v, ..none() });
        all.push(Grade {
            temp: v,
            tint: -v,
            exposure: v / 3,
            contrast: v / 2,
            brightness: -v / 4,
            shadows: v,
            whites: -v,
            blacks: v / 5,
            dehaze: v,
            vibrance: v,
            saturation: -v / 2,
            clarity: v,
        });
    }
    for g in all {
        let mut out = Raster { w: img.w, h: img.h, d: img.d.clone() };
        grade(&mut out, &g);
        assert_eq!(out.d, in_floats(&img, &g), "{g:?}");
    }
}

#[test]
fn neutral_grade_leaves_every_pixel_untouched() {
    let mut img = solid(8, 8, [40, 90, 170]);
    let before = img.d.clone();
    grade(&mut img, &none());
    assert_eq!(img.d, before);
}

#[test]
fn sliders_move_the_picture_in_the_labelled_direction() {
    let px = |g: Grade| {
        let mut img = solid(4, 4, [120, 120, 120]);
        grade(&mut img, &g);
        [img.d[0], img.d[1], img.d[2]]
    };
    assert!(px(Grade { exposure: 50, ..none() })[0] > 120);
    assert!(px(Grade { exposure: -50, ..none() })[0] < 120);
    let w = px(Grade { temp: 80, ..none() });
    assert!(w[0] > w[2]);
    let c = px(Grade { temp: -80, ..none() });
    assert!(c[2] > c[0]);
    let m = px(Grade { tint: 80, ..none() });
    assert!(m[1] < m[0] && m[1] < m[2]);
    assert!(px(Grade { brightness: 100, ..none() })[0] > 120);
}

#[test]
fn saturation_and_vibrance_only_move_colour_not_grey() {
    let mut grey = solid(4, 4, [128, 128, 128]);
    grade(&mut grey, &Grade { saturation: 100, vibrance: 100, ..none() });
    for c in &grey.d[0..3] {
        assert!((*c as i32 - 128).abs() <= 1);
    }
    assert!(grey.d[0] == grey.d[1] && grey.d[1] == grey.d[2]);
    let mut color = solid(4, 4, [180, 100, 100]);
    grade(&mut color, &Grade { saturation: 100, ..none() });
    assert!(color.d[0] - color.d[1] > 80);
}

#[test]
fn curve_endpoints_stay_put_and_lift_black() {
    let mut img = Raster { w: 2, h: 1, d: vec![0, 0, 0, 255, 255, 255] };
    grade(&mut img, &Grade { blacks: 100, ..none() });
    assert!(img.d[0] > 20);
    assert_eq!(img.d[3], 255);
}

#[test]
fn clarity_leaves_a_flat_image_flat() {
    let mut img = solid(64, 48, [100, 130, 160]);
    let before = img.d.clone();
    grade(&mut img, &Grade { clarity: 100, ..none() });
    for (p, q) in img.d.iter().zip(&before) {
        assert!((*p as i32 - *q as i32).abs() <= 1);
    }
}

#[test]
fn box_blur_of_a_constant_plane_is_that_constant() {
    let plane = vec![num(0.5); 40 * 30];
    for r in [1usize, 5, 17] {
        for v in box_blur(&plane, 40, 30, r) {
            assert!((float(v) - 0.5).abs() < 1e-5);
        }
    }
}

fn assert_matches_ffmpeg(g: Grade, want: &[(u8, u8)], tol: i32) {
    for &(i, o) in want {
        let mut img = solid(1, 1, [i, i, i]);
        grade(&mut img, &g);
        assert!((img.d[0] as i32 - o as i32).abs() <= tol, "{i}: {} {o}", img.d[0]);
    }
}

#[test]
fn curves_match_the_ffmpeg_filter_they_mirror() {
    assert_matches_ffmpeg(
        Grade { shadows: 25, whites: 15, blacks: -20, ..none() },
        &[
            (0, 0),
            (16, 4),
            (32, 21),
            (48, 45),
            (64, 75),
            (80, 102),
            (96, 127),
            (112, 150),
            (128, 172),
            (144, 191),
            (160, 208),
            (176, 223),
            (192, 235),
            (208, 244),
            (224, 250),
            (240, 254),
        ],
        2,
    );
}

#[test]
fn exposure_contrast_and_brightness_match_the_ffmpeg_filters() {
    assert_matches_ffmpeg(
        Grade { contrast: 30, ..none() },
        &[
            (0, 0),
            (32, 7),
            (64, 48),
            (96, 86),
            (128, 127),
            (160, 165),
            (192, 206),
            (224, 245),
        ],
        3,
    );
    assert_matches_ffmpeg(
        Grade { brightness: 25, ..none() },
        &[
            (0, 29),
            (32, 61),
            (64, 93),
            (96, 125),
            (128, 157),
            (160, 189),
            (192, 221),
            (224, 253),
        ],
        3,
    );
    assert_matches_ffmpeg(
        Grade { exposure: 25, ..none() },
        &[(0, 0), (32, 54), (64, 108), (96, 161), (128, 215), (160, 255), (192, 255)],
        3,
    );
}

#[test]
fn colour_temperature_matches_the_ffmpeg_filter() {
    for (input, want) in [([128u8; 3], [128u8, 115, 105]), ([255; 3], [255, 229, 209])] {
        let mut img = solid(1, 1, input);
        grade(&mut img, &Grade { temp: 40, ..none() });
        for c in 0..3 {
            assert!((img.d[c] as i32 - want[c] as i32).abs() <= 1);
        }
    }
}

#[test]
fn dehaze_matches_the_ffmpeg_filter() {
    assert_matches_ffmpeg(
        Grade { dehaze: 50, ..none() },
        &[
            (0, 0),
            (32, 4),
            (64, 40),
            (96, 76),
            (128, 112),
            (160, 148),
            (192, 184),
            (224, 220),
        ],
        2,
    );
    assert_matches_ffmpeg(
        Grade { dehaze: -100, ..none() },
        &[
            (0, 56),
            (32, 80),
            (64, 105),
            (96, 130),
            (128, 155),
            (160, 180),
            (192, 205),
            (224, 230),
        ],
        2,
    );
}

#[test]
fn dehaze_brings_colour_back_as_it_lifts_the_veil() {
    let mut img = solid(4, 4, [150, 130, 120]);
    grade(&mut img, &Grade { dehaze: 100, ..none() });
    assert!(img.d[0] as i32 - img.d[2] as i32 > 150 - 120);
}

#[test]
fn the_whole_chain_composes_the_same_way_ffmpeg_does() {
    let g = Grade {
        temp: 40,
        exposure: 15,
        contrast: 30,
        brightness: 10,
        shadows: 25,
        whites: 15,
        blacks: -20,
        vibrance: 40,
        saturation: 10,
        ..none()
    };
    let want: [(u8, [u8; 3]); 8] = [
        (0, [0, 0, 0]),
        (32, [22, 9, 2]),
        (64, [122, 90, 65]),
        (96, [197, 162, 130]),
        (128, [243, 218, 184]),
        (160, [255, 249, 231]),
        (192, [255, 255, 253]),
        (224, [255, 255, 255]),
    ];
    for (i, w) in want {
        let mut img = solid(1, 1, [i, i, i]);
        grade(&mut img, &g);
        for c in 0..3 {
            assert!((img.d[c] as i32 - w[c] as i32).abs() <= 12, "{i} {c} {}", img.d[c]);
        }
    }
}

#[test]
fn vibrance_matches_the_ffmpeg_filter() {
    for (v, want) in [(20, [168u8, 94, 94]), (-20, [137, 103, 103])] {
        let mut img = solid(1, 1, [150, 100, 100]);
        grade(&mut img, &Grade { vibrance: v, ..none() });
        for c in 0..3 {
            assert!((img.d[c] as i32 - want[c] as i32).abs() <= 3);
        }
    }
}

#[test]
fn masked_grade_only_touches_where_the_weights_say() {
    let img = solid(40, 20, [90, 100, 110]);
    let g = Grade { exposure: 60, ..none() };
    let mut whole = solid(40, 20, [90, 100, 110]);
    grade(&mut whole, &g);
    assert_ne!(whole.d, img.d);
    let share = |v: f32| share_from_bits(v.to_bits()).unwrap();
    let weights: Vec<Single> = (0..800)
        .map(|i| share(if i % 40 < 19 { 0.0 } else if i % 40 == 19 { 0.5 } else { 1.0 }))
        .collect();
    let mut out = solid(40, 20, [90, 100, 110]);
    apply_grade_masked(&mut out, &g, &tones(&g), &weights);
    let at = |d: &Vec<u8>, x: usize, y: usize| {
        let i = (y * 40 + x) * 3;
        [d[i], d[i + 1], d[i + 2]]
    };
    assert_eq!(at(&out.d, 5, 10), at(&img.d, 5, 10));
    assert_eq!(at(&out.d, 30, 10), at(&whole.d, 30, 10));
    let (a, b, m) = (at(&img.d, 19, 10), at(&whole.d, 19, 10), at(&out.d, 19, 10));
    for c in 0..3 {
        let mid = (a[c] as f32 + b[c] as f32) / 2.0;
        assert!((m[c] as f32 - mid).abs() <= 1.0, "{a:?} {b:?} {m:?}");
    }
    let mut out = solid(40, 20, [90, 100, 110]);
    apply_grade_masked(&mut out, &none(), &tones(&none()), &weights);
    assert_eq!(out.d, img.d);
    let mut out = solid(40, 20, [90, 100, 110]);
    apply_grade_masked(&mut out, &g, &tones(&g), &Vec::new());
    assert_eq!(out.d, whole.d);
}

#[test]
fn settings_out_of_range_are_moved_into_it() {
    let wild = Grade { contrast: 4000, shadows: -999, saturation: 101, ..none() };
    let tame = Grade { contrast: 100, shadows: -100, saturation: 100, ..none() };
    assert_eq!(wild.clamped(), tame);
    assert_eq!(tame.clamped(), tame);
    let (mut a, mut b) = (solid(3, 2, [90, 140, 200]), solid(3, 2, [90, 140, 200]));
    apply_grade(&mut a, &wild, &tones(&wild));
    apply_grade(&mut b, &tame, &tones(&tame));
    assert_eq!(a.d, b.d);
    assert_ne!(a.d, solid(3, 2, [90, 140, 200]).d);
    let weights = vec![share_from_bits(1.0f32.to_bits()).unwrap(); 6];
    let mut c = solid(3, 2, [90, 140, 200]);
    apply_grade_masked(&mut c, &wild, &tones(&wild), &weights);
    assert_eq!(c.d, b.d);
}

#[test]
fn the_tone_curve_follows_from_the_settings() {
    let g = Grade { shadows: 40, blacks: -20, whites: 15, ..none() };
    let want: Vec<f32> = lut(&g);
    let got = tones(&g).curve;
    for i in 0..=1024 {
        let v = got[i].size.m as f64 * (got[i].size.e as f64).exp2();
        assert_eq!(v as f32, want[i], "{i}");
    }
}
