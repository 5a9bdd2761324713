use image::{Rgb, RgbImage};
use photo2video::auto::Findings;
use photo2video::clear::SmokeField;
use photo2video::haze::{linear_of, streak_plane, Light, Planes};
use photo2video::maps::Mask;
use photo2video::mask::object_at;
use photo2video::pick;
use photo2video::raster::Raster;
use photo2video::remove::{self, Outcome};
use photo2video::scale::WORK_LONG_EDGE;
use photo2video::signed::{from_bits, Signed};
use photo2video::skies;
use photo2video::smoke::{same_field_params, AutoParams, Object, Region, Shape, SmokeParams};
use photo2video::stack::{GuardMap, GUARD_LONG};
use photo2video::strength::pool_gain_at;
use photo2video::survey::survey_photo;

fn num(v: f32) -> Signed {
    from_bits(v.to_bits()).unwrap()
}

fn float(v: Signed) -> f32 {
    let size = v.size.m as f64 * (v.size.e as f64).exp2();
    (if v.neg { -size } else { size }) as f32
}

fn srgb_to_linear(v: f32) -> f32 {
    if v <= 0.04045 {
        v / 12.92
    } else {
        ((v + 0.055) / 1.055).powf(2.4)
    }
}

fn linear_to_srgb(v: f32) -> f32 {
    if v <= 0.003_130_8 {
        v * 12.92
    } else {
        1.055 * v.powf(1.0 / 2.4) - 0.055
    }
}

fn light() -> Light {
    Light {
        tones: (0..256).map(|i| num(srgb_to_linear(i as f32 / 255.0))).collect(),
        shares: (0..101).map(|i| num(srgb_to_linear(i as f32 / 100.0))).collect(),
        smoothing: (0..101).map(|i| num(10f32.powf(-3.0 - 2.0 * (i as f32 / 100.0)))).collect(),
    }
}

fn photo(img: &RgbImage) -> Raster {
    Raster { w: img.width() as usize, h: img.height() as usize, d: img.as_raw().clone() }
}

fn picture(p: &Planes) -> RgbImage {
    let byte =
        |v: Signed| (linear_to_srgb(float(v).min(1.0)) * 255.0).round().clamp(0.0, 255.0) as u8;
    let d = (0..p.r.len()).flat_map(|i| [byte(p.r[i]), byte(p.g[i]), byte(p.b[i])]).collect();
    RgbImage::from_raw(p.w as u32, p.h as u32, d).unwrap()
}

fn outcome(img: &RgbImage, r: Outcome) -> RgbImage {
    match r {
        Outcome::Same => img.clone(),
        Outcome::Clear(p) => picture(&p),
        Outcome::TooLarge => unreachable!(),
    }
}

fn remove_smoke(img: &RgbImage, p: &SmokeParams) -> RgbImage {
    outcome(img, remove::remove_smoke(&photo(img), p.clone(), &light()))
}

fn remove_smoke_with(img: &RgbImage, p: &SmokeParams, f: &SmokeField) -> RgbImage {
    outcome(img, remove::remove_smoke_with(&photo(img), p.clone(), &light(), f))
}

fn smoke_field(img: &RgbImage, p: &SmokeParams) -> SmokeField {
    remove::smoke_field(&photo(img), p.clone(), &light()).unwrap()
}

fn floor(f: &SmokeField) -> [f32; 3] {
    [float(f.floor.0), float(f.floor.1), float(f.floor.2)]
}

fn region(x0: f32, y0: f32, x1: f32, y1: f32) -> Region {
    Region { x0: num(x0), y0: num(y0), x1: num(x1), y1: num(y1) }
}

fn level(o: &Object, u: f32, v: f32) -> f32 {
    float(object_at(o, num(u), num(v)))
}

fn select_object(img: &RgbImage, sel: Region, feather: i32, edge: i32) -> Option<Object> {
    pick::select_object(&photo(img), sel, feather, edge)
}

fn select_sky(img: &RgbImage, source: u32, feather: i32, edge: i32) -> Option<Object> {
    pick::select_sky(&photo(img), &light(), source, feather, edge)
}

fn refined(o: &Object, feather: i32, edge: i32) -> Object {
    o.refined(feather, edge)
}

struct Probe {
    sea: f32,
}

fn sky_probe(img: &RgbImage) -> Probe {
    Probe { sea: float(skies::sky_probe(&photo(img), &light()).unwrap().sea) }
}

fn region_of(img: &RgbImage, source: u32, sea: f32) -> Vec<f32> {
    let y = linear_of(&photo(img), &light()).light();
    skies::sky_region(&y, source, num(sea)).d.into_iter().map(float).collect()
}

fn shrink(img: &RgbImage, long: u32) -> RgbImage {
    let r = skies::copy_photo(&photo(img), long).unwrap();
    RgbImage::from_raw(r.w as u32, r.h as u32, r.d).unwrap()
}

fn auto_params(img: &RgbImage, source: u32) -> AutoParams {
    let seen = survey_photo(&photo(img), source, &light()).unwrap();
    let tone = linear_to_srgb((float(seen.level) - 0.004).max(0.0));
    assert_eq!(seen.found.pool, pool_gain_at(source, WORK_LONG_EDGE));
    photo2video::auto::auto_params(&Findings { tone: num(tone), ..seen.found })
}

fn field_scene(shift: u8) -> RgbImage {
    let (w, h) = (160u32, 96u32);
    RgbImage::from_fn(w, h, |x, y| {
        let mut v = if y < 60 {
            40 + (y * 2) as u8
        } else {
            (60 + ((x / 6 + y / 6) % 5) as u8 * 25) as u8
        };
        let (dx, dy) = (x as i32 - 80, y as i32 - 30);
        if dx * dx + dy * dy < 100 {
            v = 240;
        }
        let v = v.saturating_add(shift);
        Rgb([v, v.saturating_sub(5), v.saturating_sub(10)])
    })
}

fn solid(w: u32, h: u32, c: [u8; 3]) -> RgbImage {
    RgbImage::from_pixel(w, h, Rgb(c))
}

fn hash(ix: i32, iy: i32, seed: u32) -> f32 {
    let mut h = (ix as u32)
        .wrapping_mul(0x8da6_b343)
        .wrapping_add((iy as u32).wrapping_mul(0xd816_3841))
        .wrapping_add(seed.wrapping_mul(0xcbbc_9dfb));
    h ^= h >> 13;
    h = h.wrapping_mul(0x5bd1_e995);
    h ^= h >> 15;
    (h & 0xffff) as f32 / 65535.0
}

fn value_noise(x: f32, y: f32, cell: f32, seed: u32) -> f32 {
    let (gx, gy) = (x / cell, y / cell);
    let (ix, iy) = (gx.floor() as i32, gy.floor() as i32);
    let (fx, fy) = (gx - ix as f32, gy - iy as f32);
    let (sx, sy) = (fx * fx * (3.0 - 2.0 * fx), fy * fy * (3.0 - 2.0 * fy));
    let a = hash(ix, iy, seed);
    let b = hash(ix + 1, iy, seed);
    let c = hash(ix, iy + 1, seed);
    let d = hash(ix + 1, iy + 1, seed);
    let top = a + (b - a) * sx;
    let bot = c + (d - c) * sx;
    top + (bot - top) * sy
}

struct Scene {
    img: RgbImage,
    smoke: Vec<(u32, u32)>,
    burst: Vec<(u32, u32)>,
    trails: Vec<(u32, u32)>,
    sky: Vec<(u32, u32)>,
}

fn draw_burst(img: &mut RgbImage, c: (f32, f32), n: usize, len: f32, seed: u32) {
    let (wf, hf) = (img.width() as f32, img.height() as f32);
    for k in 0..n {
        let ang = k as f32 / n as f32 * std::f32::consts::TAU + 0.21;
        let l = len * (0.7 + 0.6 * value_noise(k as f32 * 13.0, 0.0, 3.0, seed));
        for s in 0..(l as usize * 2) {
            let t = s as f32 / (l as usize * 2) as f32;
            let (px, py) = (c.0 + ang.cos() * l * t, c.1 + ang.sin() * l * t);
            if px < 0.0 || py < 0.0 || px >= wf || py >= hf {
                break;
            }
            let f = (1.0 - t * 0.75).clamp(0.0, 1.0);
            let cur = img.get_pixel(px as u32, py as u32).0;
            let mut out = [0u8; 3];
            for (i, v) in [255.0f32, 205.0, 110.0].iter().enumerate() {
                out[i] = (cur[i] as f32).max(v * f) as u8;
            }
            img.put_pixel(px as u32, py as u32, Rgb(out));
        }
    }
}

fn smoky_fireworks(w: u32, h: u32) -> Scene {
    let (wf, hf) = (w as f32, h as f32);
    let mut img = RgbImage::new(w, h);
    let dense = (wf * 0.78, hf * 0.45);
    for y in 0..h {
        for x in 0..w {
            let (xf, yf) = (x as f32, y as f32);
            let dx = (xf - wf * 0.42) / (wf * 0.42);
            let dy = (yf - hf * 0.40) / (hf * 0.32);
            let fall = (1.0 - (dx * dx + dy * dy)).max(0.0);
            let tex = 0.55 * value_noise(xf, yf, wf / 7.0, 1)
                + 0.35 * value_noise(xf, yf, wf / 18.0, 2)
                + 0.10 * value_noise(xf, yf, wf / 45.0, 3);
            let dr = ((xf - dense.0).powi(2) + (yf - dense.1).powi(2)).sqrt() / (wf * 0.16);
            let lit = (1.0 - dr * dr).max(0.0) * 0.8;
            let a = (fall * fall * tex * 1.6 + lit).clamp(0.0, 1.0);
            let n = value_noise(xf, yf, 1.0, 7) * 4.0 - 2.0;
            let mut px = [0u8; 3];
            for (c, base) in [3.0f32, 4.0, 7.0].iter().enumerate() {
                let smoke = [132.0f32, 116.0, 104.0][c] * a;
                px[c] = (base + smoke + n).clamp(0.0, 255.0) as u8;
            }
            img.put_pixel(x, y, Rgb(px));
        }
    }
    let sparse = (wf * 0.32, hf * 0.38);
    draw_burst(&mut img, sparse, 48, wf * 0.26, 5);
    draw_burst(&mut img, dense, 200, wf * 0.14, 9);
    let ground = (hf * 0.88) as u32;
    for y in ground..h {
        for x in 0..w {
            let c = if x % 37 == 5 && y < ground + 6 {
                [255, 190, 90]
            } else {
                [11, 10, 13]
            };
            img.put_pixel(x, y, Rgb(c));
        }
    }
    let (mut smoke, mut burst, mut sky, mut trails) =
        (Vec::new(), Vec::new(), Vec::new(), Vec::new());
    let lit = |x: u32, y: u32, r: u32| {
        (y.saturating_sub(r)..=(y + r).min(h - 1)).any(|yy| {
            (x.saturating_sub(r)..=(x + r).min(w - 1))
                .any(|xx| img.get_pixel(xx, yy).0[0] > 140)
        })
    };
    let dist = |x: u32, y: u32, c: (f32, f32)| {
        ((x as f32 - c.0).powi(2) + (y as f32 - c.1).powi(2)).sqrt()
    };
    for y in (0..ground).step_by(3) {
        for x in (0..w).step_by(3) {
            let v = img.get_pixel(x, y).0[0];
            let d = dist(x, y, dense);
            if v <= 12 && !lit(x, y, 6) {
                sky.push((x, y));
            } else if v <= 45 {
                continue;
            } else if d < wf * 0.09 {
                if v > 140 {
                    trails.push((x, y));
                } else if !lit(x, y, 1) {
                    burst.push((x, y));
                }
            } else if d > wf * 0.22
                && dist(x, y, sparse) > wf * 0.13
                && !lit(x, y, 3)
            {
                smoke.push((x, y));
            }
        }
    }
    Scene {
        img,
        smoke,
        burst,
        trails,
        sky,
    }
}

fn mean_level(img: &RgbImage, pts: &[(u32, u32)]) -> f32 {
    let s: f32 = pts
        .iter()
        .map(|&(x, y)| img.get_pixel(x, y).0.iter().copied().max().unwrap() as f32)
        .sum();
    s / pts.len().max(1) as f32
}

fn add_cloud(img: &mut RgbImage, level: f32) {
    let (w, h) = (img.width() as f32, img.height() as f32);
    for y in 0..img.height() {
        for x in 0..img.width() {
            let dx = (x as f32 - w * 0.5) / (w * 0.55);
            let dy = (y as f32 - h * 0.18) / (h * 0.12);
            let a = (1.0 - (dx * dx + dy * dy)).max(0.0).sqrt()
                * (0.45
                    + 0.55
                        * value_noise(x as f32, y as f32, w / 22.0, 21)
                        * value_noise(x as f32, y as f32, w / 60.0, 22));
            if a <= 0.0 {
                continue;
            }
            let px = img.get_pixel_mut(x, y);
            for c in 0..3 {
                px[c] = (px[c] as f32 + level * a).min(255.0) as u8;
            }
        }
    }
}

#[test]
fn a_guard_is_lent_from_the_sky_of_the_ground() {
    let img = smoky_fireworks(640, 400).img;
    let (r, l) = (photo(&img), light());
    let map = GuardMap::new(&r, &l).unwrap();
    assert_eq!((map.w, map.h), (320, 200));
    let sky = skies::sky_weights(&r, &l, GUARD_LONG).unwrap();
    assert_eq!((sky.w, sky.h), (map.w, map.h));
    let g = map.guard();
    assert_eq!((g.w, g.h, g.threshold), (320, 200, 30));
    for (a, b) in g.sky.iter().zip(sky.d.iter()) {
        let share = a.m as f64 * (a.e as f64).exp2();
        assert_eq!(share as f32, float(*b).clamp(0.0, 1.0));
    }
    assert!(g.sky == map.sky);
}

#[test]
fn a_precomputed_field_reproduces_remove_smoke_exactly() {
    let img = field_scene(0);
    let p = SmokeParams {
        strength: 70,
        detail: 50,
        ..SmokeParams::default()
    };
    let direct = remove_smoke(&img, &p);
    let field = smoke_field(&img, &p);
    let via = remove_smoke_with(&img, &p, &field);
    assert_eq!(direct.as_raw(), via.as_raw());
    assert_eq!(field.smoke.len(), 3);
    assert!(field.sky.is_some());

    let other = smoke_field(&field_scene(30), &p);
    let mid = field.lerp(&other, num(0.5));
    for c in 0..3 {
        let want = (floor(&field)[c] + floor(&other)[c]) / 2.0;
        assert!((floor(&mid)[c] - want).abs() < 1e-6);
    }
    let i = 20 * 160 + 80;
    let want = (float(field.smoke[1][i]) + float(other.smoke[1][i])) / 2.0;
    assert!((float(mid.smoke[1][i]) - want).abs() < 1e-5);
    assert!((float(field.lerp(&other, num(0.0)).smoke[1][i]) - float(field.smoke[1][i])).abs() < 1e-6);
    assert!((float(field.lerp(&other, num(1.0)).smoke[1][i]) - float(other.smoke[1][i])).abs() < 1e-6);

    let small = smoke_field(
        &image::imageops::resize(&img, 80, 48, image::imageops::FilterType::Triangle),
        &p,
    );
    let kept = field.lerp(&small, num(0.5));
    assert_eq!((kept.w, kept.h), (160, 96));
    assert_eq!(kept.smoke[0], field.smoke[0]);

    let mut q = p.clone();
    q.strength = 30;
    q.shapes.push(Shape::Rect(region(0.1, 0.1, 0.5, 0.5)));
    assert!(same_field_params(&p, &q));
    assert!(!same_field_params(&p, &SmokeParams { detail: 51, ..p.clone() }));
    assert!(!same_field_params(&p, &SmokeParams { sky_only: false, ..p.clone() }));
    assert!(!same_field_params(&p, &SmokeParams { strength: 0, ..p.clone() }));
}

#[test]
fn boxing_an_object_traces_it_and_leaves_the_sky_alone() {
    let (w, h) = (200u32, 140u32);
    let mut img = solid(w, h, [12, 14, 20]);
    let blob = |img: &mut RgbImage, cx: f32, cy: f32, r: f32, c: [u8; 3]| {
        for y in 0..h {
            for x in 0..w {
                let (dx, dy) = (x as f32 + 0.5 - cx, y as f32 + 0.5 - cy);
                if (dx * dx + dy * dy).sqrt() < r {
                    *img.get_pixel_mut(x, y) = Rgb(c);
                }
            }
        }
    };
    blob(&mut img, 50.0, 70.0, 25.0, [220, 180, 120]);
    blob(&mut img, 150.0, 70.0, 25.0, [210, 170, 110]);

    let at = |x: f32, y: f32| (x / w as f32, y / h as f32);
    let sel = region(15.0 / w as f32, 35.0 / h as f32, 85.0 / w as f32, 105.0 / h as f32);
    let o = select_object(&img, sel, 0, 0).unwrap();
    let (cu, cv) = at(50.0, 70.0);
    assert!(level(&o, cu, cv) > 0.8);
    let (su, sv) = at(20.0, 40.0);
    assert!(level(&o, su, sv) < 0.2);
    let (ou, ov) = at(150.0, 70.0);
    assert!(level(&o, ou, ov) < 0.2);

    let empty = region(0.3, 0.02, 0.7, 0.2);
    assert!(select_object(&img, empty, 0, 0).is_none());
}

#[test]
fn a_dark_patch_inside_the_object_is_selected_too() {
    let (w, h) = (200u32, 140u32);
    let mut img = solid(w, h, [12, 14, 20]);
    for y in 40..100 {
        for x in 60..140 {
            *img.get_pixel_mut(x, y) = Rgb([220, 180, 120]);
        }
    }
    for y in 60..80 {
        for x in 85..115 {
            *img.get_pixel_mut(x, y) = Rgb([12, 14, 20]);
        }
    }
    let sel = region(0.22, 0.2, 0.78, 0.85);
    let o = select_object(&img, sel, 0, 0).unwrap();
    assert!(level(&o, 100.0 / w as f32, 70.0 / h as f32) > 0.8);
    assert!(level(&o, 50.0 / w as f32, 70.0 / h as f32) < 0.2);
}

#[test]
fn feather_and_edge_reshape_the_same_selection() {
    let (w, h) = (200u32, 140u32);
    let mut img = solid(w, h, [12, 14, 20]);
    for y in 40..100 {
        for x in 60..140 {
            *img.get_pixel_mut(x, y) = Rgb([220, 180, 120]);
        }
    }
    let sel = region(0.22, 0.2, 0.78, 0.85);
    let sharp = select_object(&img, sel, 0, 0).unwrap();
    let (eu, ev) = (142.0 / w as f32, 70.0 / h as f32);
    let soft = refined(&sharp, 60, 0);
    assert!(level(&sharp, eu, ev) < 0.05);
    assert!(level(&soft, eu, ev) > 0.05);
    let (iu, iv) = (137.0 / w as f32, 70.0 / h as f32);
    let shrunk = refined(&sharp, 0, -100);
    assert!(level(&sharp, iu, iv) > 0.8);
    assert!(level(&shrunk, iu, iv) < level(&sharp, iu, iv));
    let (cu, cv) = (100.0 / w as f32, 70.0 / h as f32);
    for o in [&soft, &shrunk] {
        assert!(level(&o, cu, cv) > 0.8);
    }
}

#[test]
fn trails_buried_in_thick_smoke_come_back() {
    let (w, h) = (200u32, 140u32);
    let mut img = solid(w, h, [210, 150, 96]);
    for y in 0..h {
        for x in 0..w {
            if x % 20 == 0 || x % 20 == 1 {
                *img.get_pixel_mut(x, y) = Rgb([245, 196, 140]);
            }
        }
    }
    let run = |restore: bool| {
        let out = remove_smoke(
            &img,
            &SmokeParams {
                strength: 100,
                restore_trails: restore,
                sky_only: false,
                ..SmokeParams::default()
            },
        );
        let lum = |p: [u8; 3]| {
            0.2126 * p[0] as f32 + 0.7152 * p[1] as f32 + 0.0722 * p[2] as f32
        };
        (
            lum(out.get_pixel(100, 70).0),
            lum(out.get_pixel(110, 70).0),
        )
    };
    let (trail_off, smoke_off) = run(false);
    let (trail_on, smoke_on) = run(true);

    assert!(trail_on > trail_off + 8.0);
    assert!(smoke_on < smoke_off + 6.0);
}

#[test]
fn noisy_smoke_is_not_mistaken_for_trails() {
    let (w, h) = (240u32, 160u32);
    let mut img = RgbImage::new(w, h);
    let mut seed = 12345u32;
    for y in 0..h {
        for x in 0..w {
            seed = seed.wrapping_mul(1664525).wrapping_add(1013904223);
            let n = ((seed >> 8) % 49) as i32 - 24;
            let px = [180 + n, 120 + n * 2 / 3, 80 + n / 2];
            img.put_pixel(
                x,
                y,
                Rgb([
                    px[0].clamp(0, 255) as u8,
                    px[1].clamp(0, 255) as u8,
                    px[2].clamp(0, 255) as u8,
                ]),
            );
        }
    }
    let mean = |i: &RgbImage| {
        i.pixels()
            .map(|p| p.0.iter().map(|&v| v as f64).sum::<f64>())
            .sum::<f64>()
            / (i.width() * i.height() * 3) as f64
    };
    let run = |restore: bool| {
        mean(&remove_smoke(
            &img,
            &SmokeParams {
                strength: 100,
                restore_trails: restore,
                sky_only: false,
                ..SmokeParams::default()
            },
        ))
    };
    let (src, off, on) = (mean(&img), run(false), run(true));
    assert!(on < src * 0.2);
}

#[test]
fn red_clipped_smoke_is_still_removed() {
    let (w, h) = (160u32, 120u32);
    let mut img = solid(w, h, [255, 117, 74]);
    for y in 0..h {
        img.put_pixel(80, y, Rgb([255, 215, 150]));
        img.put_pixel(81, y, Rgb([255, 215, 150]));
    }
    let out = remove_smoke(
        &img,
        &SmokeParams {
            strength: 100,
            sky_only: false,
            ..SmokeParams::default()
        },
    );
    let smoke = out.get_pixel(30, 60).0;
    assert!(smoke.iter().all(|&v| v < 60));
    let trail = out.get_pixel(80, 60).0;
    assert!(trail[0] >= 240);
}

#[test]
fn a_blue_night_sky_keeps_its_colour() {
    let (w, h) = (240u32, 160u32);
    let sky = [12u8, 30, 80];
    let mut img = solid(w, h, sky);
    for y in 60..100 {
        for x in 60..120 {
            img.put_pixel(x, y, Rgb([150, 140, 130]));
        }
    }
    for strength in [80, 100] {
        let out = remove_smoke(
            &img,
            &SmokeParams {
                strength,
                sky_only: false,
                ..SmokeParams::default()
            },
        );
        let clean = out.get_pixel(20, 20).0;
        assert!((0..3).all(|c| (clean[c] as i32 - sky[c] as i32).abs() <= 4));
        let gone = out.get_pixel(90, 80).0;
        assert!((0..3).all(|c| (gone[c] as i32 - sky[c] as i32).abs() <= 12));
    }
}

#[test]
fn a_sea_gap_does_not_let_the_sky_leak_into_the_water() {
    let (w, h) = (300u32, 200u32);
    let mut img = solid(w, h, [12, 14, 20]);
    for y in 100..h {
        for x in 0..w {
            if y < 130 && (x < 110 || x >= 190) {
                let c = if (x + y) % 2 == 0 {
                    [200, 190, 170]
                } else {
                    [40, 36, 30]
                };
                img.put_pixel(x, y, Rgb(c));
            } else if x >= 110 && x < 190 || y >= 130 {
                let t = ((y - 100) as f32 / 30.0).min(1.0);
                let c = [
                    (12.0 + 218.0 * t) as u8,
                    (14.0 + 186.0 * t) as u8,
                    (20.0 + 190.0 * t) as u8,
                ];
                img.put_pixel(x, y, Rgb(c));
            }
        }
    }
    let probe = sky_probe(&img);
    assert!(probe.sea < 0.65);
    let sw = w as usize;
    let wt = region_of(&img, w, probe.sea);
    let at = |x: usize, y: usize| wt[y * sw + x];
    assert!(at(150, 50) > 0.8);
    assert!(at(50, 50) > 0.8);
    assert!(at(150, 170) < 0.2);
    assert!(at(50, 170) < 0.2);
}

#[test]
fn the_white_core_of_a_burst_keeps_its_brightness() {
    let (w, h) = (160u32, 120u32);
    let mut img = solid(w, h, [20, 22, 30]);
    for y in 0..h {
        for x in 0..w {
            if x < 80 {
                *img.get_pixel_mut(x, y) = Rgb([238, 186, 128]);
            }
        }
    }
    for y in 40..80 {
        for x in 100..140 {
            *img.get_pixel_mut(x, y) = Rgb([240, 238, 236]);
        }
    }
    let out = remove_smoke(
        &img,
        &SmokeParams {
            strength: 100,
            sky_only: false,
            ..SmokeParams::default()
        },
    );
    let core_src = img.get_pixel(120, 60).0;
    let core_out = out.get_pixel(120, 60).0;
    let drop: i32 = (0..3)
        .map(|c| core_src[c] as i32 - core_out[c] as i32)
        .max()
        .unwrap();
    assert!(drop <= 12);

    let smoke_src = img.get_pixel(40, 60).0;
    let smoke_out = out.get_pixel(40, 60).0;
    let removed: i32 = (0..3)
        .map(|c| smoke_src[c] as i32 - smoke_out[c] as i32)
        .max()
        .unwrap();
    assert!(removed > 40);
}

#[test]
fn sky_only_decides_whether_the_ground_is_touched() {
    let (w, h) = (200u32, 160u32);
    let mut img = solid(w, h, [30, 32, 45]);
    for y in 0..h {
        for x in 0..w {
            if y >= 110 {
                let n = ((x * 7 + y * 13) % 90) as u8;
                *img.get_pixel_mut(x, y) = Rgb([120 + n, 110 + n, 100 + n]);
            }
        }
    }
    let ground = |p: &SmokeParams| {
        let out = remove_smoke(&img, p);
        let a = img.get_pixel(100, 145).0;
        let b = out.get_pixel(100, 145).0;
        (0..3).map(|c| (a[c] as i32 - b[c] as i32).abs()).sum::<i32>()
    };
    let on = SmokeParams {
        strength: 100,
        sky_only: true,
        ..SmokeParams::default()
    };
    let off = SmokeParams {
        sky_only: false,
        ..on.clone()
    };
    assert_eq!(ground(&on), 0);
    assert!(ground(&off) > 0);
}

#[test]
fn sky_region_keeps_the_sky_and_the_fireworks_but_drops_the_ground() {
    let (w, h) = (240u32, 200u32);
    let mut img = solid(w, h, [40, 42, 55]);
    for y in 0..h {
        for x in 0..w {
            let p = img.get_pixel_mut(x, y);
            let noisy = |seed: u32| ((seed.wrapping_mul(2654435761)) >> 24) as u8;
            if y >= 150 {
                let n = noisy(x * 7 + y * 13);
                *p = Rgb([n, n / 2 + 60, n / 3 + 80]);
            } else if (100..140).contains(&x) && (60..100).contains(&y) {
                let v = if (x + y) % 3 == 0 { 230 } else { 45 };
                *p = Rgb([v, v, v]);
            }
        }
    }
    let r = region_of(&img, w.max(h), 1.0);
    let at = |x: u32, y: u32| r[y as usize * w as usize + x as usize];

    assert!(at(20, 20) > 0.8);
    assert!(at(120, 80) > 0.8);
    assert!(at(120, 130) > 0.8);
    assert!(at(120, 190) < 0.2);
}

#[test]
fn select_sky_keeps_the_sky_but_skips_the_fireworks_lines_and_the_ground() {
    let (w, h) = (240u32, 200u32);
    let mut img = solid(w, h, [40, 42, 55]);
    for y in 0..h {
        for x in 0..w {
            let p = img.get_pixel_mut(x, y);
            let noisy = |seed: u32| ((seed.wrapping_mul(2654435761)) >> 24) as u8;
            if y >= 150 {
                let n = noisy(x * 7 + y * 13);
                *p = Rgb([n, n / 2 + 60, n / 3 + 80]);
            } else if (100..140).contains(&x) && (60..100).contains(&y) {
                let v = if (x + y) % 3 == 0 { 230 } else { 45 };
                *p = Rgb([v, v, v]);
            }
        }
    }
    let o = select_sky(&img, 0, 0, 0).unwrap();
    let at = |x: u32, y: u32| level(&o, x as f32 / w as f32, y as f32 / h as f32);
    assert!(at(20, 20) > 0.8);
    assert!(at(120, 130) > 0.7);
    assert!(at(120, 80) < 0.3);
    assert!(at(120, 190) < 0.2);

    let soft = refined(&o, 50, 0);
    assert_eq!((soft.w, soft.h), (o.w, o.h));
    assert_eq!(soft.area, o.area);
}

#[test]
fn zero_strength_returns_the_original_untouched() {
    let img = solid(8, 6, [90, 70, 130]);
    let out = remove_smoke(
        &img,
        &SmokeParams {
            strength: 0,
            ..SmokeParams::default()
        },
    );
    assert_eq!(out, img);
}

#[test]
fn output_keeps_the_input_dimensions() {
    let img = solid(37, 19, [40, 40, 60]);
    let out = remove_smoke(&img, &SmokeParams::default());
    assert_eq!((out.width(), out.height()), (37, 19));
}

#[test]
fn pure_black_stays_black() {
    let img = solid(16, 16, [0, 0, 0]);
    let out = remove_smoke(&img, &SmokeParams::default());
    assert!(out.pixels().all(|p| p.0 == [0, 0, 0]));
}

#[test]
fn uniform_smoke_is_removed() {
    let img = solid(64, 64, [120, 100, 170]);
    let out = remove_smoke(
        &img,
        &SmokeParams {
            strength: 100,
            detail: 60,
            ..SmokeParams::default()
        },
    );
    let brightest = out
        .pixels()
        .map(|p| p.0.iter().copied().max().unwrap())
        .max();
    assert_eq!(brightest, Some(0));
}

#[test]
fn heavily_faded_pixels_keep_their_hue() {
    let mut img = solid(64, 64, [200, 140, 80]);
    for y in 0..64 {
        for x in (6..64).step_by(12) {
            img.put_pixel(x, y, Rgb([205, 160, 140]));
            img.put_pixel(x + 1, y, Rgb([205, 160, 140]));
        }
    }
    let out = remove_smoke(
        &img,
        &SmokeParams {
            strength: 55,
            ..SmokeParams::default()
        },
    );
    let p = out.get_pixel(6, 32).0;
    assert!(p[0] > p[1] && p[1] > p[2]);
}

#[test]
fn warm_cores_keep_their_brightness() {
    let mut img = solid(128, 128, [190, 150, 110]);
    for y in 44..84 {
        for x in 44..84 {
            img.put_pixel(x, y, Rgb([250, 225, 170]));
        }
    }
    let out = remove_smoke(&img, &SmokeParams::default());
    let p = out.get_pixel(64, 64).0;
    assert!(p[0] >= 245 && p[1] >= 220);
    let smoke = out.get_pixel(4, 4).0;
    assert!(smoke.iter().all(|&v| v < 60));
}

#[test]
fn clipped_highlights_keep_their_brightness() {
    let mut img = solid(64, 64, [190, 170, 150]);
    for y in 28..36 {
        for x in 28..36 {
            img.put_pixel(x, y, Rgb([255, 252, 246]));
        }
    }
    let out = remove_smoke(&img, &SmokeParams::default());
    let p = out.get_pixel(32, 32).0;
    assert!(p[0] >= 250 && p[1] >= 245);
}

#[test]
fn clipped_highlights_keep_their_hue() {
    let mut img = solid(64, 64, [120, 100, 170]);
    for y in 30..34 {
        for x in 30..34 {
            img.put_pixel(x, y, Rgb([255, 160, 60]));
        }
    }
    let out = remove_smoke(&img, &SmokeParams::default());
    let p = out.get_pixel(32, 32).0;
    assert!(p[0] > p[1] && p[1] >= p[2]);
}

#[test]
fn unclipped_streaks_keep_their_hue() {
    let mut img = solid(64, 64, [110, 80, 60]);
    for y in 0..64 {
        img.put_pixel(31, y, Rgb([210, 170, 70]));
        img.put_pixel(32, y, Rgb([210, 170, 70]));
    }
    let out = remove_smoke(&img, &SmokeParams::default());
    let p = out.get_pixel(31, 32).0;
    let before = 210.0 / 170.0;
    let after = p[0] as f32 / p[1].max(1) as f32;
    assert!(after > before * 0.98);
}

#[test]
fn tiny_images_do_not_panic() {
    for (w, h) in [(1, 1), (1, 7), (7, 1), (2, 3), (3, 2)] {
        let img = solid(w, h, [100, 90, 140]);
        let out = remove_smoke(&img, &SmokeParams::default());
        assert_eq!((out.width(), out.height()), (w, h));
    }
}

#[test]
fn region_leaves_the_outside_untouched() {
    let img = solid(80, 80, [120, 100, 170]);
    let p = SmokeParams {
        strength: 100,
        feather: 0,
        shapes: vec![Shape::Rect(region(0.5, 0.0, 1.0, 1.0))],
        ..SmokeParams::default()
    };
    let out = remove_smoke(&img, &p);
    assert_eq!(out.get_pixel(2, 40).0, [120, 100, 170]);
    assert!(out.get_pixel(78, 40).0[2] < 170);
}

#[test]
fn protected_colour_survives() {
    let keep = [40, 200, 210];
    let mut img = solid(80, 80, [120, 100, 170]);
    for y in 20..60 {
        for x in 20..60 {
            img.put_pixel(x, y, Rgb(keep));
        }
    }
    let mut p = SmokeParams {
        strength: 100,
        tolerance: 20,
        ..SmokeParams::default()
    };
    assert!(p.add_protect(keep));
    let out = remove_smoke(&img, &p);
    assert_eq!(out.get_pixel(40, 40).0, keep);
    assert!(out.get_pixel(2, 2).0[2] < 170);
}

#[test]
fn every_protected_colour_survives() {
    let keeps = [[40, 200, 210], [230, 90, 40], [90, 240, 110]];
    let mut img = solid(160, 60, [120, 100, 170]);
    for (k, c) in keeps.iter().enumerate() {
        for y in 20..40 {
            for x in (k as u32 * 50 + 10)..(k as u32 * 50 + 40) {
                img.put_pixel(x, y, Rgb(*c));
            }
        }
    }
    let mut p = SmokeParams {
        strength: 100,
        tolerance: 20,
        ..SmokeParams::default()
    };
    for c in &keeps {
        assert!(p.add_protect(*c));
    }
    let out = remove_smoke(&img, &p);
    for (k, c) in keeps.iter().enumerate() {
        assert_eq!(out.get_pixel(k as u32 * 50 + 25, 30).0, *c);
    }
    assert!(out.get_pixel(2, 2).0[2] < 170);
}

#[test]
fn zero_tolerance_barely_protects_anything() {
    let img = solid(64, 64, [120, 100, 170]);
    let mut p = SmokeParams {
        strength: 100,
        tolerance: 0,
        ..SmokeParams::default()
    };
    p.add_protect([40, 200, 210]);
    let out = remove_smoke(&img, &p);
    let brightest = out
        .pixels()
        .map(|p| p.0.iter().copied().max().unwrap())
        .max();
    assert_eq!(brightest, Some(0));
}

#[test]
fn sky_clean_works_without_dehazing() {
    let mut img = solid(80, 80, [0, 0, 0]);
    for y in 0..40 {
        for x in 0..80 {
            img.put_pixel(x, y, Rgb([40, 44, 60]));
        }
    }
    let p = SmokeParams {
        strength: 0,
        sky_clean: 100,
        sky_range: 60,
        ..SmokeParams::default()
    };
    assert!(!p.is_neutral());
    let out = remove_smoke(&img, &p);
    let before = img.get_pixel(40, 10).0[2];
    let after = out.get_pixel(40, 10).0[2];
    assert!(after < before);
}

#[test]
fn nothing_enabled_returns_the_original() {
    let img = solid(32, 32, [90, 80, 130]);
    let p = SmokeParams {
        strength: 0,
        sky_clean: 0,
        sky_color: None,
        ..SmokeParams::default()
    };
    assert!(p.is_neutral());
    assert_eq!(remove_smoke(&img, &p), img);
}

#[test]
fn sky_tint_colours_a_black_sky() {
    let img = solid(80, 80, [0, 0, 0]);
    let p = SmokeParams {
        strength: 0,
        sky_clean: 0,
        sky_range: 60,
        sky_color: Some([30, 60, 140]),
        sky_tint: 100,
        ..SmokeParams::default()
    };
    let out = remove_smoke(&img, &p);
    let px = out.get_pixel(40, 40).0;
    assert!(px[2] > px[0]);
    assert!(px[2] > 10);
}

#[test]
fn cloud_clean_reaches_lit_smoke() {
    let smoke = [150, 150, 158];
    let mut img = solid(120, 120, [0, 0, 0]);
    for y in 0..60 {
        for x in 0..120 {
            img.put_pixel(x, y, Rgb(smoke));
        }
    }
    let at = |p: &SmokeParams| remove_smoke(&img, p).get_pixel(60, 20).0[1];
    let narrow = SmokeParams {
        strength: 0,
        sky_clean: 100,
        sky_range: 20,
        ..SmokeParams::default()
    };
    let before = at(&narrow);
    assert!(before >= 145);
    let wide = SmokeParams {
        sky_range: 90,
        ..narrow.clone()
    };
    let after = at(&wide);
    assert!(after < 60);
}

#[test]
fn picked_cloud_colour_gets_pushed_back_to_night() {
    let cloud = [150, 150, 158];
    let mut img = solid(80, 80, [0, 0, 0]);
    for y in 0..40 {
        for x in 0..80 {
            img.put_pixel(x, y, Rgb(cloud));
        }
    }
    let base = SmokeParams {
        strength: 0,
        sky_clean: 100,
        sky_range: 40,
        ..SmokeParams::default()
    };
    let kept = remove_smoke(&img, &base).get_pixel(40, 10).0[1];
    assert!(kept >= 145);

    let mut p = base.clone();
    assert!(p.add_cloud(cloud));
    let after = remove_smoke(&img, &p).get_pixel(40, 10).0[1];
    assert!(after < 40);
}

#[test]
fn picked_cloud_colour_stops_at_the_skyline() {
    let cloud = [150, 150, 158];
    let mut img = solid(80, 80, [0, 0, 0]);
    for y in 0..80 {
        for x in 0..80 {
            let c = match y {
                0..=19 => cloud,
                20..=49 => [0, 0, 0],
                50..=54 => [255, 180, 60],
                _ => cloud,
            };
            img.put_pixel(x, y, Rgb(c));
        }
    }
    let mut p = SmokeParams {
        strength: 0,
        sky_clean: 100,
        sky_range: 40,
        ..SmokeParams::default()
    };
    p.add_cloud(cloud);
    let out = remove_smoke(&img, &p);
    assert!(out.get_pixel(40, 8).0[1] < 40);
    assert!(out.get_pixel(40, 70).0[1] >= 145);
}

#[test]
fn streak_fill_separates_bursts_from_smoke() {
    let s = smoky_fireworks(2400, 1700);
    let (fw, fh) = (s.img.width() as usize, s.img.height() as usize);
    let (r, light) = (photo(&s.img), light());
    let gate = streak_plane(&r, &light, WORK_LONG_EDGE);
    let (ww, wh) = (gate.w, gate.h);
    let at = |p: &Mask, pts: &[(u32, u32)]| {
        let sum: f32 = pts
            .iter()
            .map(|&(x, y)| {
                let (bx, by) = (x as usize * ww / fw, y as usize * wh / fh);
                float(p.d[by.min(wh - 1) * ww + bx.min(ww - 1)])
            })
            .sum();
        sum / pts.len() as f32
    };
    let (burst, smoke, sky) = (at(&gate, &s.burst), at(&gate, &s.smoke), at(&gate, &s.sky));

    assert!(burst > 0.15);
    assert!(burst > smoke * 4.0);
    assert!(sky < 0.02);
}

#[test]
fn auto_params_read_the_same_off_a_thumbnail() {
    let s = smoky_fireworks(2000, 1400);
    let long = s.img.width();
    let full = auto_params(&s.img, long);
    let small = auto_params(&shrink(&s.img, 500), long);

    assert!((full.strength - small.strength).abs() <= 4
            && (full.detail - small.detail).abs() <= 4
            && full.sky_clean == small.sky_clean);
}

#[test]
fn a_cloud_the_dehaze_can_reach_does_not_push_cloud_clean_past_the_floor() {
    let s = smoky_fireworks(1600, 1100);
    let clear = auto_params(&s.img, s.img.width());
    assert_eq!(clear.sky_clean, 20);
    let mut cloudy = s.img.clone();
    add_cloud(&mut cloudy, 70.0);
    let with_cloud = auto_params(&cloudy, cloudy.width());

    assert_eq!(with_cloud.sky_clean, 20);
}

#[test]
fn auto_keeps_the_defaults_when_there_is_no_sky() {
    let img = solid(400, 300, [180, 170, 160]);
    assert_eq!(auto_params(&img, 400), AutoParams::default());
}

#[test]
fn auto_compensates_for_the_downsampling_of_big_photos() {
    let s = smoky_fireworks(1600, 1100);
    let small = auto_params(&s.img, WORK_LONG_EDGE);
    let huge = auto_params(&s.img, WORK_LONG_EDGE * 4);

    assert!(huge.strength > small.strength);
    assert_eq!((huge.detail, huge.sky_clean), (small.detail, small.sky_clean));
}

#[test]
fn smoke_of_a_small_scene_is_cleared() {
    let s = smoky_fireworks(600, 425);
    let p = SmokeParams { strength: 100, ..SmokeParams::default() };
    let out = remove_smoke(&s.img, &p);
    assert!(mean_level(&s.img, &s.smoke) > 60.0);
    assert!(mean_level(&out, &s.smoke) < mean_level(&s.img, &s.smoke) * 0.5);
    let mut v: Vec<u8> =
        s.smoke.iter().map(|&(x, y)| out.get_pixel(x, y).0.iter().copied().max().unwrap()).collect();
    v.sort_unstable();
    assert!(v[v.len() / 2] <= 10);
}

#[test]
fn the_trails_of_a_small_scene_stand_out() {
    let s = smoky_fireworks(600, 425);
    let p = SmokeParams { sky_only: false, ..SmokeParams::default() };
    let out = remove_smoke(&s.img, &p);
    let before = mean_level(&s.img, &s.trails) / mean_level(&s.img, &s.burst);
    let after = mean_level(&out, &s.trails) / mean_level(&out, &s.burst).max(1.0);
    assert!(after > before);
}

#[test]
fn a_small_scene_calls_for_less_once_its_smoke_is_gone() {
    let s = smoky_fireworks(520, 368);
    let smoky = auto_params(&s.img, s.img.width());
    let p = SmokeParams { strength: 100, ..SmokeParams::default() };
    let cleared = remove_smoke(&s.img, &p);
    let done = auto_params(&cleared, cleared.width());
    assert!(done.strength < smoky.strength);
}

#[test]
fn photos_too_small_to_look_at_call_for_the_usual_settings() {
    assert_eq!(auto_params(&solid(31, 200, [90, 90, 90]), 4000), AutoParams::default());
    assert_eq!(auto_params(&solid(200, 20, [90, 90, 90]), 200), AutoParams::default());
}

#[test]
fn settings_out_of_range_are_brought_into_it() {
    let img = field_scene(0);
    let wild = SmokeParams { strength: 900, detail: -4, tolerance: 777, ..SmokeParams::default() };
    let tame = SmokeParams { strength: 100, detail: 0, tolerance: 100, ..SmokeParams::default() };
    assert_eq!(remove_smoke(&img, &wild), remove_smoke(&img, &tame));
    assert_ne!(remove_smoke(&img, &wild), img);
    let field = smoke_field(&img, &wild);
    assert_eq!(remove_smoke_with(&img, &wild, &field), remove_smoke(&img, &wild));
}

fn disc() -> Object {
    let raw: Vec<u8> = (0..400).map(|i| if (i % 20) * (i / 20) > 90 { 255 } else { 0 }).collect();
    Object { area: region(0.0, 0.0, 1.0, 1.0), w: 20, h: 20, mask: raw.clone(), raw, feather: 0, edge: 0 }
}

#[test]
fn refining_with_the_same_numbers_gives_a_copy() {
    let o = disc();
    let same = refined(&o, 0, 0);
    assert_eq!((same.mask, same.raw), (o.mask.clone(), o.raw.clone()));
    let soft = refined(&o, 80, 0);
    assert_ne!(soft.mask, o.mask);
    assert_eq!(refined(&soft, 0, 0).mask, o.mask);
}

#[test]
fn full_and_empty_selections_stay() {
    for level in [0u8, 255] {
        for (feather, edge) in [(0, 0), (35, 0), (100, 60), (0, -100), (70, 100)] {
            let raw = vec![level; 37 * 23];
            assert_eq!(pick::refine_object(&raw, 37, 23, feather, edge), raw);
        }
    }
    let steps: Vec<u8> = (0..=255).collect();
    assert_eq!(pick::refine_object(&steps, 16, 16, 0, 0), steps);
}
