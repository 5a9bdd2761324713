use photo2video::clear::{ColorMatch, Pixel, SkyWork, SmokeField};
use photo2video::signed::{from_bits, Signed};

fn num(v: f32) -> Signed {
    from_bits(v.to_bits()).unwrap()
}

fn float(v: Signed) -> f32 {
    let size = v.size.m as f64 * (v.size.e as f64).exp2();
    (if v.neg { -size } else { size }) as f32
}

fn colour(c: [f32; 3]) -> (Signed, Signed, Signed) {
    (num(c[0]), num(c[1]), num(c[2]))
}

fn floats(c: (Signed, Signed, Signed)) -> [f32; 3] {
    [float(c.0), float(c.1), float(c.2)]
}

struct Rng(u64);

impl Rng {
    fn next(&mut self) -> f32 {
        self.0 = self.0.wrapping_mul(6364136223846793005).wrapping_add(1442695040888963407);
        (self.0 >> 40) as f32 / (1u64 << 24) as f32
    }
    fn byte(&mut self) -> u8 {
        (self.next() * 256.0) as u8
    }
}

fn smoothstep(e0: f32, e1: f32, v: f32) -> f32 {
    if e1 <= e0 {
        return if v >= e1 { 1.0 } else { 0.0 };
    }
    let t = ((v - e0) / (e1 - e0)).clamp(0.0, 1.0);
    t * t * (3.0 - 2.0 * t)
}

fn match_in_floats(keys: &[[u8; 3]], tolerance: i32, src: [u8; 3]) -> f32 {
    let t1 = tolerance as f32 / 100.0 * 0.9;
    let t0 = t1 * 0.6;
    if keys.is_empty() {
        return 1.0;
    }
    let mut d = f32::INFINITY;
    for key in keys {
        let dist = (0..3)
            .map(|c| {
                let v = src[c] as f32 / 255.0 - key[c] as f32 / 255.0;
                v * v
            })
            .sum::<f32>()
            .sqrt()
            / 3f32.sqrt();
        if dist < d {
            d = dist;
        }
    }
    if d <= t0 {
        return 0.0;
    }
    if d >= t1 || t1 <= t0 {
        return 1.0;
    }
    let t = (d - t0) / (t1 - t0);
    t * t * (3.0 - 2.0 * t)
}

#[test]
fn colours_are_compared_as_in_single_precision() {
    let mut r = Rng(5);
    for tolerance in [0, 3, 30, 75, 100] {
        let keys: Vec<[u8; 3]> = (0..4).map(|_| [r.byte(), r.byte(), r.byte()]).collect();
        let given: Vec<(usize, [u8; 3])> = keys.iter().map(|k| (0, *k)).collect();
        let m = ColorMatch::new(&given, tolerance);
        for _ in 0..300 {
            let src = [r.byte(), r.byte(), r.byte()];
            assert_eq!(float(m.at(src)), match_in_floats(&keys, tolerance, src));
        }
        for k in &keys {
            assert_eq!(float(m.at(*k)), 0.0);
        }
    }
    assert_eq!(float(ColorMatch::new(&Vec::new(), 30).at([1, 2, 3])), 1.0);
}

#[allow(clippy::too_many_arguments)]
fn clear_in_floats(
    src: [u8; 3],
    lin: [f32; 3],
    smoke: Option<[f32; 3]>,
    w: f32,
    core_area: Option<f32>,
    excess: Option<f32>,
    k: f32,
    floor: [f32; 3],
) -> [f32; 3] {
    if w <= 0.0 {
        return lin;
    }
    let k = k * w;
    let i = [lin[0] - floor[0], lin[1] - floor[1], lin[2] - floor[2]];
    let s = match smoke {
        None => [0.0; 3],
        Some(m) => [
            (m[0] - floor[0]).max(0.0),
            (m[1] - floor[1]).max(0.0),
            (m[2] - floor[2]).max(0.0),
        ],
    };
    let smoky = s[0] > 0.0 || s[1] > 0.0 || s[2] > 0.0;
    let mut rgb = [0.0f32; 3];
    for c in 0..3 {
        rgb[c] = i[c] - k * s[c];
    }
    let m = rgb[0].min(rgb[1]).min(rgb[2]);
    if m < 0.0 && smoky {
        for c in 0..3 {
            rgb[c] += m;
        }
    }
    let lo = if smoky { 0.0 } else { f32::NEG_INFINITY };
    for c in 0..3 {
        rgb[c] = rgb[c].max(lo).max(-floor[c]);
    }
    let yi = 0.2126 * i[0] + 0.7152 * i[1] + 0.0722 * i[2];
    let ys = 0.2126 * s[0] + 0.7152 * s[1] + 0.0722 * s[2];
    let vmax8 = src[0].max(src[1]).max(src[2]) as f32;
    let clip_w = ((vmax8 - 235.0) / 20.0).clamp(0.0, 1.0);
    let vmin8 = src[0].min(src[1]).min(src[2]) as f32;
    let core_w = (smoothstep(215.0, 235.0, vmax8)
        * smoothstep(0.75, 0.92, vmin8 / vmax8.max(1.0)))
    .max(core_area.unwrap_or(0.0));
    let above = if ys > 0.0 { yi / ys } else { f32::INFINITY };
    let clip_keep = ((vmax8 - 246.0) / (255.0 - 246.0)).clamp(0.0, 1.0)
        * smoothstep(1.3, 2.0, above).max(smoothstep(0.35, 0.6, vmin8 / vmax8.max(1.0)));
    let keep_bright = clip_keep.max(core_w);
    let glow_w = if ys > 0.0 { ((above - 1.6) / 1.4).clamp(0.0, 1.0) } else { 0.0 };
    let fade_w = if yi > 0.0 { smoothstep(0.35, 0.8, k * ys / yi) } else { 0.0 };
    let keep_hue = clip_w.max(glow_w).max(keep_bright).max(fade_w);
    if keep_hue > 0.0 && yi > 0.0 {
        let scale = (1.0 - k * ys / yi).max(0.0);
        let scale = scale + (1.0 - scale) * keep_bright;
        for c in 0..3 {
            rgb[c] = rgb[c] * (1.0 - keep_hue) + i[c] * scale * keep_hue;
        }
    }
    if let Some(ex) = excess {
        let att = if yi > 0.0 { (k * ys / yi).clamp(0.0, 1.0) } else { 0.0 };
        let want = ex * w * smoothstep(0.25, 0.60, att);
        if want > 0.0 && yi > 0.0 {
            let out_y = 0.2126 * rgb[0] + 0.7152 * rgb[1] + 0.0722 * rgb[2];
            if want > out_y {
                let s = want / yi;
                for c in 0..3 {
                    rgb[c] = i[c] * s;
                }
            }
        }
    }
    [rgb[0] + floor[0], rgb[1] + floor[1], rgb[2] + floor[2]]
}

#[test]
fn smoke_goes_as_in_single_precision() {
    let mut r = Rng(11);
    for n in 0..4000 {
        let src = if n % 5 == 0 {
            let v = 235 + (r.next() * 21.0) as u8;
            [v, v, v.saturating_sub(r.byte() / 4)]
        } else {
            [r.byte(), r.byte(), r.byte()]
        };
        let lin = src.map(|v| {
            let v = v as f32 / 255.0;
            if v <= 0.04045 {
                v / 12.92
            } else {
                ((v + 0.055) / 1.055).powf(2.4)
            }
        });
        let floor = [r.next() * 0.02, r.next() * 0.02, r.next() * 0.02];
        let smoke = (n % 7 != 0).then_some([r.next() * 0.4, r.next() * 0.4, r.next() * 0.4]);
        let w = if n % 11 == 0 { 0.0 } else { r.next() };
        let centre = (n % 3 == 0).then_some(r.next());
        let excess = (n % 2 == 0).then_some(r.next() * 0.3);
        let k = r.next() * 1.6;
        let want = clear_in_floats(src, lin, smoke, w, centre, excess, k, floor);
        let p = Pixel {
            src,
            lin: colour(lin),
            smoke: smoke.map(colour),
            w: num(w),
            centre: centre.map(num),
            excess: excess.map(num),
        };
        assert_eq!(floats(p.cleared(num(k), colour(floor))), want, "sample {n}");
        if w == 0.0 {
            assert_eq!(want, lin);
        }
    }
}

#[test]
fn the_sky_is_worked_on_as_in_single_precision() {
    let mut r = Rng(3);
    for n in 0..1500 {
        let c = [r.next() * 0.2, r.next() * 0.2, r.next() * 0.2];
        let floor = [r.next() * 0.02, r.next() * 0.02, r.next() * 0.02];
        let s = if n % 9 == 0 { 0.0 } else { r.next() };
        let clean = if n % 4 == 0 { 0.0 } else { r.next() };
        let tint = if n % 5 == 0 { 0.0 } else { r.next() };
        let target = (n % 3 != 0).then_some([r.next() * 0.1, r.next() * 0.1, r.next() * 0.2]);
        let mut want = c;
        if s > 0.0 {
            if clean > 0.0 {
                let k = 1.0 - clean * s;
                for c in 0..3 {
                    want[c] = floor[c] + (want[c] - floor[c]).max(0.0) * k;
                }
            }
            if let Some(t) = target.filter(|_| tint > 0.0) {
                let ty = 0.2126 * t[0] + 0.7152 * t[1] + 0.0722 * t[2];
                if ty > 1e-6 {
                    let y = 0.2126 * want[0] + 0.7152 * want[1] + 0.0722 * want[2];
                    let deficit = (1.0 - y / ty).clamp(0.0, 1.0);
                    let a = tint * s * deficit;
                    for c in 0..3 {
                        want[c] += t[c] * a;
                    }
                }
            }
        }
        let sky = SkyWork {
            clean: num(clean),
            tint: num(tint),
            colour: target.map(colour),
            floor: colour(floor),
        };
        assert_eq!(floats(sky.work(colour(c), num(s))), want, "sample {n}");
    }
}

fn field(v: f32, sky: bool, w: usize) -> SmokeField {
    SmokeField {
        smoke: vec![vec![num(v); w * 2]; 3],
        floor: colour([v, v * 0.5, 0.0]),
        sky: if sky { Some(vec![num(v); w * 2]) } else { None },
        w,
        h: 2,
    }
}

#[test]
fn fields_mix_only_with_their_like() {
    let (a, b) = (field(0.2, true, 3), field(0.9, true, 3));
    let m = a.lerp(&b, num(0.25));
    let want = 0.2 + (0.9 - 0.2) * 0.25f32;
    assert_eq!(float(m.smoke[2][5]), want);
    assert_eq!(float(m.sky.unwrap()[0]), want);
    assert_eq!(float(m.floor.0), want);
    let end = a.lerp(&b, num(7.0));
    assert_eq!(float(end.smoke[0][0]), 0.2 + (0.9f32 - 0.2) * 1.0);
    for other in [field(0.9, false, 3), field(0.9, true, 4)] {
        let same = a.lerp(&other, num(0.5));
        assert_eq!((same.w, same.h), (a.w, a.h));
        assert_eq!((same.smoke, same.sky, same.floor), (a.smoke.clone(), a.sky.clone(), a.floor));
    }
}
