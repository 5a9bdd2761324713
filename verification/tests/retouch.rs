use photo2video::enhance::{keep_main_blobs, off_subject_share, radius_of, Ladder, Local, Preset};
use photo2video::maps::{blur, cover_of, Mask};
use photo2video::measure::{analyze, lack_of, mask_photo, measure, Auto};
use photo2video::raster::Raster;
use photo2video::retouch::{apply_local, mask_overlay, sharpen_subject, smooth_skin};
use photo2video::signed::{from_bits, Signed};
use photo2video::single::{ratio, Single};
use photo2video::subject::{skin_mask, subject_mask_of};

fn num(v: f32) -> Signed {
    from_bits(v.to_bits()).unwrap()
}

fn float(v: Signed) -> f32 {
    let size = v.size.m as f64 * (v.size.e as f64).exp2();
    (if v.neg { -size } else { size }) as f32
}

fn picture(w: usize, h: usize, f: impl Fn(usize, usize) -> [u8; 3]) -> Raster {
    let mut d = Vec::new();
    for y in 0..h {
        for x in 0..w {
            d.extend_from_slice(&f(x, y));
        }
    }
    Raster { w, h, d }
}

fn solid(w: usize, h: usize, c: [u8; 3]) -> Raster {
    picture(w, h, |_, _| c)
}

fn copy(img: &Raster) -> Raster {
    Raster { w: img.w, h: img.h, d: img.d.clone() }
}

fn scene(w: usize, h: usize) -> Raster {
    let mut s: u32 = 11;
    let mut grain = Vec::new();
    for _ in 0..w * h {
        s = s.wrapping_mul(1_664_525).wrapping_add(1_013_904_223);
        grain.push((s >> 27) as i32);
    }
    picture(w, h, |x, y| {
        let n = grain[y * w + x];
        let c: [i32; 3] = if x < w / 2 && y > h / 4 { [214, 168, 140] } else { [60, 90, 150] };
        [(c[0] + n) as u8, (c[1] + n / 2) as u8, (c[2] - n) as u8]
    })
}

/// Stops that the middle of a photo is short of its target.
fn stops(img: &Raster, p: Preset) -> Signed {
    lack_of(img, p).map_or(Signed::zero(), |v| num(float(v).log2()))
}

fn judge(img: &Raster, p: Preset) -> Auto {
    analyze(img, p, stops(img, p)).unwrap()
}

type FloatMask = (Vec<f32>, usize, usize);

fn floats(m: &Mask) -> Vec<f32> {
    m.d.iter().map(|v| float(*v)).collect()
}

fn level(v: &[f32], share: Single) -> f32 {
    float(Ladder::new(v.iter().map(|x| num(*x)).collect()).lower(share))
}

fn colours(img: &Raster) -> Vec<[f32; 3]> {
    img.d
        .chunks(3)
        .map(|p| [p[0] as f32 / 255.0, p[1] as f32 / 255.0, p[2] as f32 / 255.0])
        .collect()
}

fn smoothstep(e0: f32, e1: f32, v: f32) -> f32 {
    if e1 <= e0 {
        return if v >= e1 { 1.0 } else { 0.0 };
    }
    let t = ((v - e0) / (e1 - e0)).clamp(0.0, 1.0);
    t * t * (3.0 - 2.0 * t)
}

fn luma_f(c: [f32; 3]) -> f32 {
    c[0] * 0.2126 + c[1] * 0.7152 + c[2] * 0.0722
}

fn pass(input: &[f32], out: &mut [f32], w: usize, h: usize, r: usize) {
    let win = (2 * r + 1) as f32;
    for y in 0..h {
        let row = &input[y * w..(y + 1) * w];
        let mut acc: f32 = row[0] * (r + 1) as f32;
        for x in 1..=r {
            acc += row[x.min(w - 1)];
        }
        for x in 0..w {
            out[y * w + x] = acc / win;
            acc += row[(x + r + 1).min(w - 1)];
            acc -= row[x.saturating_sub(r)];
        }
    }
}

fn box_blur_f(src: &[f32], w: usize, h: usize, r: usize) -> Vec<f32> {
    if r == 0 || w == 0 || h == 0 || src.len() != w * h {
        return src.to_vec();
    }

    let transpose = |src: &[f32], w: usize, h: usize| {
        let mut out = vec![0.0f32; w * h];
        for y in 0..h {
            for x in 0..w {
                out[x * h + y] = src[y * w + x];
            }
        }
        out
    };

    let mut tmp = vec![0.0f32; w * h];
    pass(src, &mut tmp, w, h, r);
    let t = transpose(&tmp, w, h);
    drop(tmp);
    let mut tmp2 = vec![0.0f32; w * h];
    pass(&t, &mut tmp2, h, w, r);
    drop(t);
    transpose(&tmp2, h, w)
}

fn sample_f((m, mw, mh): &FloatMask, x: usize, y: usize, w: usize, h: usize) -> f32 {
    let (mw, mh) = (*mw, *mh);
    if m.is_empty() || mw == 0 || mh == 0 {
        return 0.0;
    }
    if mw == w && mh == h {
        return m[y * w + x];
    }
    let fx = (x as f32 + 0.5) * mw as f32 / w as f32 - 0.5;
    let fy = (y as f32 + 0.5) * mh as f32 / h as f32 - 0.5;
    let x0 = fx.floor().max(0.0) as usize;
    let y0 = fy.floor().max(0.0) as usize;
    let x1 = (x0 + 1).min(mw - 1);
    let y1 = (y0 + 1).min(mh - 1);
    let x0 = x0.min(mw - 1);
    let y0 = y0.min(mh - 1);
    let tx = (fx - x0 as f32).clamp(0.0, 1.0);
    let ty = (fy - y0 as f32).clamp(0.0, 1.0);
    let a = m[y0 * mw + x0] * (1.0 - tx) + m[y0 * mw + x1] * tx;
    let b = m[y1 * mw + x0] * (1.0 - tx) + m[y1 * mw + x1] * tx;
    a * (1.0 - ty) + b * ty
}

fn norm_f(v: &[f32]) -> Vec<f32> {
    if v.is_empty() {
        return Vec::new();
    }
    let hi = level(v, ratio(98, 100)).max(1e-6);
    v.iter().map(|x| (x / hi).clamp(0.0, 1.0)).collect()
}

fn fade_f(m: &mut [f32], w: usize, h: usize, rel: u64, floor: u64) {
    let on: Vec<bool> = m.iter().map(|&v| v >= 0.5).collect();
    for (v, faded) in m.iter_mut().zip(keep_main_blobs(&on, w, h, rel, floor)) {
        if faded {
            *v *= 0.15;
        }
    }
}

fn skin_f(small: &Raster) -> FloatMask {
    let (w, h) = (small.w, small.h);
    let mut m = Vec::with_capacity(w * h);
    for p in small.d.chunks(3) {
        let (r, g, b) = (p[0] as f32, p[1] as f32, p[2] as f32);
        let y = 0.299 * r + 0.587 * g + 0.114 * b;
        let cb = 128.0 - 0.168_736 * r - 0.331_264 * g + 0.5 * b;
        let cr = 128.0 + 0.5 * r - 0.418_688 * g - 0.081_312 * b;

        let wy = smoothstep(45.0, 75.0, y) * (1.0 - smoothstep(238.0, 252.0, y));

        let wcb = smoothstep(72.0, 84.0, cb) * (1.0 - smoothstep(120.0, 132.0, cb));
        let wcr = smoothstep(128.0, 138.0, cr) * (1.0 - smoothstep(168.0, 178.0, cr));

        let wrg = smoothstep(4.0, 16.0, r - g) * smoothstep(0.0, 10.0, g - b);

        let mx = r.max(g).max(b);
        let sat = if mx > 1.0 { (mx - r.min(g).min(b)) / mx } else { 0.0 };
        let wsat = smoothstep(0.12, 0.20, sat) * (1.0 - smoothstep(0.42, 0.60, sat));
        m.push(wy * wcb * wcr * wrg * wsat);
    }

    let m = box_blur_f(&m, w, h, (w.max(h) / 60).max(1));

    let mut m: Vec<f32> = m.iter().map(|v| smoothstep(0.12, 0.45, *v)).collect();

    fade_f(&mut m, w, h, 0, 1);
    (m, w, h)
}

fn subject_f(
    small: &Raster,
    preset: Preset,
    skin: &FloatMask,
) -> FloatMask {
    let (w, h) = (small.w, small.h);
    let n = w * h;
    if n == 0 {
        return (Vec::new(), 0, 0);
    }
    let px = colours(small);
    let y: Vec<f32> = px.iter().map(|c| luma_f(*c)).collect();

    let r_fine = (w.max(h) / 128).max(1);
    let fine = box_blur_f(&y, w, h, r_fine);
    let edge: Vec<f32> = y
        .iter()
        .zip(fine.iter())
        .map(|(a, b)| (a - b).abs())
        .collect();
    let detail = box_blur_f(&edge, w, h, (w.max(h) / 20).max(2));

    let r_wide = (w.max(h) / 5).max(3);
    let wide_y = box_blur_f(&y, w, h, r_wide);

    let rg: Vec<f32> = px.iter().map(|c| c[0] - c[1]).collect();
    let yb: Vec<f32> = px.iter().map(|c| (c[0] + c[1]) / 2.0 - c[2]).collect();
    let wide_rg = box_blur_f(&rg, w, h, r_wide);
    let wide_yb = box_blur_f(&yb, w, h, r_wide);
    let cs: Vec<f32> = (0..n)
        .map(|i| {
            let dy = (y[i] - wide_y[i]).abs();
            let dc = ((rg[i] - wide_rg[i]).powi(2) + (yb[i] - wide_yb[i]).powi(2)).sqrt();
            dy + dc
        })
        .collect();
    let cs = box_blur_f(&cs, w, h, (w.max(h) / 32).max(2));

    let dn = norm_f(&detail);
    let cn = norm_f(&cs);
    let mut sal: Vec<f32> = (0..n).map(|i| dn[i] * 0.60 + cn[i] * 0.40).collect();

    for (i, v) in sal.iter_mut().enumerate() {
        let (x, yy) = ((i % w) as f32 / w as f32, (i / w) as f32 / h as f32);
        let d = ((x - 0.5).powi(2) + (yy - 0.5).powi(2)).sqrt() / 0.707;
        *v *= 0.86 + 0.14 * (1.0 - d);
    }

    if preset == Preset::Portrait {
        for (i, v) in sal.iter_mut().enumerate() {
            let (x, yy) = (i % w, i / w);
            *v = v.max(sample_f(skin, x, yy, w, h));
        }
    }

    let thr = level(&sal, off_subject_share(preset));
    let mut m: Vec<f32> = sal
        .iter()
        .map(|v| smoothstep(thr * 0.75, thr * 1.15, *v))
        .collect();

    if preset != Preset::Landscape {
        fade_f(&mut m, w, h, 200, 0);
    }

    let m = box_blur_f(&m, w, h, (w.max(h) / 40).max(2));
    (m, w, h)
}

fn sharpen_f(
    img: &mut Raster,
    mask: &FloatMask,
    skin: &FloatMask,
    avoid_skin: bool,
    amount: f32,
    long: usize,
) {
    let (w, h) = (img.w, img.h);
    let y: Vec<f32> = colours(img).iter().map(|c| luma_f(*c)).collect();

    let r_local = radius_of(long, 300, 1, 60);
    let r_sharp = radius_of(long, 900, 1, 12);

    let mut detail = box_blur_f(&y, w, h, r_local);
    for (d, y0) in detail.iter_mut().zip(y.iter()) {
        *d = (*y0 - *d) * 0.75;
    }
    {
        let sharp = box_blur_f(&y, w, h, r_sharp);
        for ((d, y0), s) in detail.iter_mut().zip(y.iter()).zip(sharp.iter()) {
            *d += (*y0 - *s) * 0.55;
        }
    }

    drop(y);

    for (i, p) in img.d.chunks_mut(3).enumerate() {
        let (x, yy) = (i % w, i / w);
        let mut m = sample_f(mask, x, yy, w, h);
        if avoid_skin {
            m *= 1.0 - sample_f(skin, x, yy, w, h);
        }
        if m <= 0.002 {
            continue;
        }
        let k = m * amount;
        let c = [
            p[0] as f32 / 255.0,
            p[1] as f32 / 255.0,
            p[2] as f32 / 255.0,
        ];
        let base = luma_f(c);

        let gain = 1.0 + 0.18 * k;
        let ny = base * gain + detail[i] * k;

        let s = 1.0 + 0.10 * k;
        for ch in 0..3 {
            let v = ny + (c[ch] - base) * s;
            p[ch] = (v.clamp(0.0, 1.0) * 255.0 + 0.5) as u8;
        }
    }
}

fn smooth_f(img: &mut Raster, skin: &FloatMask, amount: f32, long: usize) {
    let (w, h) = (img.w, img.h);

    let r = radius_of(long, 260, 1, 90);

    let strength: Vec<u8> = {
        let y: Vec<f32> = colours(img).iter().map(|c| luma_f(*c)).collect();
        let lo = box_blur_f(&y, w, h, r);
        (0..w * h)
            .map(|i| {
                let m = sample_f(skin, i % w, i / w, w, h);
                if m <= 0.004 {
                    return 0;
                }

                let keep = smoothstep(0.045, 0.16, (y[i] - lo[i]).abs());

                let k = m * amount * (1.0 - keep) * 0.85;
                (k.clamp(0.0, 1.0) * 255.0 + 0.5) as u8
            })
            .collect()
    };

    for ch in 0..3 {
        let plane: Vec<f32> = img.d.chunks(3).map(|p| p[ch] as f32 / 255.0).collect();
        let lo = box_blur_f(&plane, w, h, r);
        for (i, p) in img.d.chunks_mut(3).enumerate() {
            let k = strength[i] as f32 / 255.0;
            if k <= 0.0 {
                continue;
            }
            let v = lo[i] + (plane[i] - lo[i]) * (1.0 - k);
            p[ch] = (v.clamp(0.0, 1.0) * 255.0 + 0.5) as u8;
        }
    }
}


#[test]
fn skin_agrees_with_single_precision() {
    for (w, h) in [(40, 30), (17, 61)] {
        let img = scene(w, h);
        let got = skin_mask(&img);
        assert_eq!((got.w, got.h), (w, h));
        let want = skin_f(&img);
        assert!(want.0.iter().any(|v| *v > 0.0));
        assert_eq!(floats(&got), want.0);
    }
}

#[test]
fn subjects_agree_with_single_precision() {
    let img = scene(40, 30);
    for p in Preset::ALL {
        let skin = skin_mask(&img);
        let want = subject_f(&img, p, &(floats(&skin), skin.w, skin.h));
        let got = subject_mask_of(&img, p, &skin);
        assert_eq!(floats(&got), want.0, "{p:?}");
    }
}

#[test]
fn retouching_agrees_with_single_precision() {
    let img = scene(44, 28);
    let small = skin_mask(&scene(22, 14));
    let mask = subject_mask_of(&scene(20, 13), Preset::Bird, &small);
    let (fs, fm) = ((floats(&small), 22, 14), (floats(&mask), 20, 13));
    for avoid in [false, true] {
        let (mut got, mut want) = (copy(&img), copy(&img));
        sharpen_subject(&mut got, &mask, &small, avoid, num(0.6));
        sharpen_f(&mut want, &fm, &fs, avoid, 0.6, 44);
        assert!(got.d != img.d);
        assert_eq!(got.d, want.d);
    }
    let (mut got, mut want) = (copy(&img), copy(&img));
    smooth_skin(&mut got, &small, num(0.8));
    smooth_f(&mut want, &fs, 0.8, 44);
    assert!(got.d != img.d);
    assert_eq!(got.d, want.d);
}

#[test]
fn measuring_agrees_with_single_precision() {
    let img = scene(40, 30);
    let s = measure(&img, num(0.5));
    let px = colours(&img);
    let y: Vec<f32> = px.iter().map(|c| luma_f(*c)).collect();
    let n = y.len();
    let mut sorted = y.clone();
    sorted.sort_by(|a, b| a.total_cmp(b));
    let q = |f: f32| sorted[((n - 1) as f32 * f).round() as usize];
    assert_eq!(s.pixels as usize, n);
    for (got, f) in
        [(s.p01, 0.01), (s.p05, 0.05), (s.p25, 0.25), (s.p50, 0.5), (s.p95, 0.95), (s.p99, 0.99)]
    {
        assert_eq!(float(got), q(f), "{f}");
    }
    assert_eq!(s.dark as usize, y.iter().filter(|v| **v < 0.10).count());
    assert_eq!(s.bright as usize, y.iter().filter(|v| **v > 0.88).count());
    let mut sum = [0.0f32; 3];
    let mut middle = 0;
    for (c, yv) in px.iter().zip(y.iter()) {
        if *yv > 0.08 && *yv < 0.92 {
            for i in 0..3 {
                sum[i] += c[i];
            }
            middle += 1;
        }
    }
    assert_eq!(s.middle, middle);
    assert_eq!([float(s.red), float(s.green), float(s.blue)], sum);
    let mut dark: Vec<f32> = px.iter().map(|c| c[0].min(c[1]).min(c[2])).collect();
    dark.sort_by(|a, b| a.total_cmp(b));
    assert_eq!(float(s.veil), dark[((n - 1) as f32 * 0.15) as usize]);
    let (mut chroma, mut coloured) = (0.0f32, 0);
    for c in &px {
        let mx = c[0].max(c[1]).max(c[2]);
        let mn = c[0].min(c[1]).min(c[2]);
        if mx > 0.06 {
            chroma += (mx - mn) / mx;
            coloured += 1;
        }
    }
    assert_eq!(s.coloured, coloured);
    assert_eq!(float(s.chroma), chroma);
    let soft = box_blur_f(&y, 40, 30, 2);
    let local = y.iter().zip(soft.iter()).map(|(a, b)| (a - b).abs()).sum::<f32>() / n as f32;
    assert_eq!(float(s.local), local);
    assert_eq!(s.stops, num(0.5));
}

#[test]
fn overlays_agree_with_single_precision() {
    let img = scene(40, 30);
    let got = mask_overlay(&img, Preset::Portrait).unwrap();
    let skin = skin_f(&img);
    let mask = subject_f(&img, Preset::Portrait, &skin);
    let mut want = copy(&img);
    for (i, p) in want.d.chunks_mut(3).enumerate() {
        let (m, s) = (mask.0[i], skin.0[i]);
        let dim = 0.30 + 0.70 * m.max(s);
        let cold = [0.35f32, 0.55, 1.0];
        let warm = [1.0f32, 0.45, 0.62];
        for ch in 0..3 {
            let tint = cold[ch] + (warm[ch] - cold[ch]) * s;
            let v = p[ch] as f32 / 255.0 * dim * (m + (1.0 - m) * tint);
            p[ch] = (v.clamp(0.0, 1.0) * 255.0 + 0.5) as u8;
        }
    }
    assert_eq!(got.d, want.d);
}

fn blurred(src: &[f32], w: usize, h: usize, r: usize) -> Vec<f32> {
    let d: Vec<Signed> = src.iter().map(|v| num(*v)).collect();
    blur(&d, w, h, r).into_iter().map(float).collect()
}

#[test]
fn box_blur_roughly_keeps_the_mean() {
    let src = vec![0.0, 1.0, 0.0, 1.0, 0.0, 1.0, 0.0, 1.0, 0.0];
    let out = blurred(&src, 3, 3, 1);
    let a: f32 = src.iter().sum::<f32>() / 9.0;
    let b: f32 = out.iter().sum::<f32>() / 9.0;
    assert!((a - b).abs() < 0.15, "{a} vs {b}");
}

#[test]
fn box_blur_spreads_a_point() {
    let mut src = vec![0.0f32; 81];
    src[40] = 1.0;
    let out = blurred(&src, 9, 9, 2);
    assert!(out[40] < 0.1);
    assert!(out[40 - 9] > 0.0);
}

#[test]
fn box_blur_stands_a_radius_past_the_picture() {
    let src: Vec<f32> = (0..12).map(|i| i as f32).collect();
    let out = blurred(&src, 4, 3, 50);
    assert_eq!(out.len(), 12);
    assert_eq!(out, box_blur_f(&src, 4, 3, 50));
}

#[test]
fn blue_photos_are_warmed() {
    assert!(judge(&solid(64, 64, [90, 100, 150]), Preset::Landscape).grade.temp > 0);
}

#[test]
fn orange_photos_are_cooled() {
    assert!(judge(&solid(64, 64, [170, 110, 70]), Preset::Landscape).grade.temp < 0);
}

#[test]
fn hazy_photos_are_dehazed_and_given_contrast() {
    let img = picture(128, 128, |x, _| [110 + (x % 16) as u8; 3]);
    let a = judge(&img, Preset::Landscape);
    assert!(a.grade.dehaze > 0);
    assert!(a.grade.contrast > 0);
}

#[test]
fn dark_photos_are_brightened() {
    assert!(judge(&solid(96, 96, [40, 42, 45]), Preset::Landscape).grade.exposure > 0);
}

#[test]
fn night_scenes_are_not_forced_bright() {
    let img = picture(128, 128, |x, y| {
        if x < 20 && y < 20 { [230, 200, 170] } else { [10, 11, 16] }
    });
    for p in Preset::ALL {
        let a = judge(&img, p);
        assert!(a.grade.exposure <= 3, "{p:?} {}", a.grade.exposure);
        assert!(a.grade.shadows <= 3, "{p:?} {}", a.grade.shadows);
    }
}

#[test]
fn underexposed_photos_are_still_brightened() {
    assert!(judge(&solid(96, 96, [58, 60, 63]), Preset::Landscape).grade.exposure > 5);
}

#[test]
fn every_advice_lies_in_its_range() {
    let img = picture(96, 96, |x, y| [(x * 2) as u8, (y * 2) as u8, ((x + y) % 256) as u8]);
    for p in Preset::ALL {
        let g = judge(&img, p).grade;
        for v in [
            g.temp, g.tint, g.exposure, g.contrast, g.brightness, g.shadows, g.whites, g.blacks,
            g.dehaze, g.vibrance, g.saturation, g.clarity,
        ] {
            assert!((-100..=100).contains(&v), "{p:?} {v}");
        }
    }
}

#[test]
fn portraits_get_no_more_clarity_than_landscapes() {
    let img = picture(128, 128, |x, _| [90 + (x % 8) as u8; 3]);
    let land = judge(&img, Preset::Landscape).grade.clarity;
    let port = judge(&img, Preset::Portrait).grade.clarity;
    assert!(port <= land, "{port} {land}");
}

fn skin_share(img: &Raster) -> f32 {
    float(cover_of(&skin_mask(img).d))
}

#[test]
fn skin_is_found_and_leaves_are_not_skin() {
    assert!(skin_share(&solid(64, 64, [222, 176, 148])) > 0.8);
    assert!(skin_share(&solid(64, 64, [70, 130, 60])) < 0.02);
    assert!(skin_share(&solid(64, 64, [120, 130, 145])) < 0.02);
}

#[test]
fn warm_colours_too_strong_or_too_pale_are_not_skin() {
    for c in [[235u8, 60, 30], [245, 232, 224], [46, 36, 30]] {
        assert!(skin_share(&solid(64, 64, c)) < 0.05, "{c:?}");
    }
}

#[test]
fn scattered_skin_specks_are_filtered_out() {
    let img = picture(256, 256, |x, y| {
        if x % 8 == 0 && y % 8 == 0 { [222, 176, 148] } else { [12, 14, 30] }
    });
    assert!(skin_share(&mask_photo(&img).unwrap()) < 0.02);
}

#[test]
fn the_subject_is_where_the_detail_is() {
    let img = picture(200, 120, |x, y| {
        if x < 100 {
            [150, 175, 210]
        } else {
            [if (x + y) % 2 == 0 { 40 } else { 210 }; 3]
        }
    });
    let small = mask_photo(&img).unwrap();
    let skin = skin_mask(&small);
    let m = subject_mask_of(&small, Preset::Bird, &skin);
    let v = floats(&m);
    let (mut left, mut right) = (0.0f32, 0.0f32);
    for i in 0..m.w * m.h {
        if i % m.w < m.w / 2 {
            left += v[i];
        } else {
            right += v[i];
        }
    }
    assert!(right > left * 2.0, "{left} {right}");
}

#[test]
fn nothing_asked_leaves_the_photo_alone() {
    let src = picture(64, 64, |x, y| [x as u8, y as u8, 128]);
    let mut img = copy(&src);
    assert!(apply_local(&mut img, Preset::Bird, Local { subject: 0, skin: 0 }));
    assert_eq!(src.d, img.d);
}

#[test]
fn photos_without_skin_are_not_smoothed() {
    let src = picture(64, 64, |x, y| [40, x as u8, y as u8]);
    let mut img = copy(&src);
    assert!(apply_local(&mut img, Preset::Portrait, Local { subject: 0, skin: 100 }));
    assert_eq!(src.d, img.d);
}

#[test]
fn smoothing_touches_skin_and_not_the_background() {
    let base = picture(128, 64, |x, y| {
        let n = if (x + y) % 2 == 0 { 12i32 } else { -12 };
        let c = if x < 64 { [222, 176, 148] } else { [70, 130, 60] };
        [
            (c[0] + n).clamp(0, 255) as u8,
            (c[1] + n).clamp(0, 255) as u8,
            (c[2] + n).clamp(0, 255) as u8,
        ]
    });
    let mut img = copy(&base);
    assert!(apply_local(&mut img, Preset::Portrait, Local { subject: 0, skin: 100 }));
    let diff = |x0: usize, x1: usize| {
        let mut d = 0.0f32;
        for x in x0..x1 {
            for y in 0..64 {
                for c in 0..3 {
                    d += (img.get(x, y, c) as f32 - base.get(x, y, c) as f32).abs();
                }
            }
        }
        d
    };
    let (skin_side, other_side) = (diff(0, 56), diff(72, 128));
    assert!(skin_side > 0.0);
    assert!(other_side < skin_side * 0.2, "{skin_side} {other_side}");
}

#[test]
fn bringing_out_the_subject_keeps_the_size() {
    let img = picture(160, 100, |x, y| {
        [(x % 256) as u8, (y % 256) as u8, ((x * y) % 256) as u8]
    });
    for p in Preset::ALL {
        let mut out = copy(&img);
        assert!(apply_local(&mut out, p, Local { subject: 100, skin: 100 }));
        assert_eq!((out.w, out.h, out.d.len()), (160, 100, img.d.len()));
    }
}

#[test]
fn showing_the_masks_keeps_the_size() {
    let img = picture(120, 80, |x, y| [(x * 2) as u8, (y * 3) as u8, 90]);
    let out = mask_overlay(&img, Preset::Bird).unwrap();
    assert_eq!((out.w, out.h), (120, 80));
}

#[test]
fn tiny_photos_are_left_as_they_are() {
    let a = judge(&solid(15, 40, [9, 9, 9]), Preset::Bird);
    assert!(!a.has_skin());
    assert_eq!(a.grade.exposure, 0);
    assert_eq!(lack_of(&solid(15, 40, [9, 9, 9]), Preset::Bird), None);
    assert_eq!(lack_of(&solid(20, 40, [0, 0, 0]), Preset::Bird), None);
    let mut img = solid(7, 40, [222, 176, 148]);
    assert!(apply_local(&mut img, Preset::Bird, Local { subject: 100, skin: 100 }));
    assert_eq!(img.d, solid(7, 40, [222, 176, 148]).d);
}

#[test]
fn skin_counts_from_a_share_of_the_photo() {
    let a = judge(&solid(64, 64, [222, 176, 148]), Preset::Portrait);
    assert!(a.has_skin());
    let edge = Auto { skin_cover: num(0.012), ..a };
    assert!(edge.has_skin());
    let less = Auto { skin_cover: num(0.0119), ..a };
    assert!(!less.has_skin());
}
