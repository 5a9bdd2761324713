use photo2video::advice::{advise, Stats};
use photo2video::auto::{
    auto_params, clean_for, clear_depths, detail_for, dim, enough_smoke, horizon, level_for, pull_for,
    scarce, sky_target, strength_for, Findings,
};
use photo2video::enhance::{Preset, Targets};
use photo2video::grade::Grade;
use photo2video::signed::{from_bits, Signed};
use photo2video::single::Single;
use photo2video::smoke::AutoParams;

fn num(v: f32) -> Signed {
    from_bits(v.to_bits()).unwrap()
}

fn float(v: Signed) -> f32 {
    let size = v.size.m as f64 * (v.size.e as f64).exp2();
    (if v.neg { -size } else { size }) as f32
}

#[derive(Clone, Copy)]
struct Raw {
    n: u32,
    p: [f32; 6],
    dark: u32,
    bright: u32,
    middle: u32,
    sum: [f32; 3],
    veil: f32,
    coloured: u32,
    chroma: f32,
    local: f32,
}

const VEIL_MAX: f32 = 0.22;

fn stats(r: &Raw, mid: f32) -> Stats {
    Stats {
        pixels: r.n,
        p01: num(r.p[0]),
        p05: num(r.p[1]),
        p25: num(r.p[2]),
        p50: num(r.p[3]),
        p95: num(r.p[4]),
        p99: num(r.p[5]),
        dark: r.dark,
        bright: r.bright,
        middle: r.middle,
        red: num(r.sum[0]),
        green: num(r.sum[1]),
        blue: num(r.sum[2]),
        veil: num(r.veil),
        stops: num(if r.p[3] > 0.0 { (mid / r.p[3]).log2() } else { 0.0 }),
        coloured: r.coloured,
        chroma: num(r.chroma),
        local: num(r.local),
    }
}

fn smoothstep(e0: f32, e1: f32, v: f32) -> f32 {
    let t = ((v - e0) / (e1 - e0)).clamp(0.0, 1.0);
    t * t * (3.0 - 2.0 * t)
}

fn round_clamp(v: f32, lo: f32, hi: f32) -> i32 {
    v.clamp(lo, hi).round() as i32
}

fn mil(n: u32) -> f32 {
    (n as f64 / 1000.0) as f32
}

fn in_floats(r: &Raw, t: &Targets) -> Grade {
    let [p01, p05, p25, p50, p95, p99] = r.p;
    let n = r.n as f32;
    let low_key = smoothstep(0.06, 0.22, p50) * (1.0 - smoothstep(0.55, 0.90, r.dark as f32 / n));
    let high_key =
        (1.0 - smoothstep(0.72, 0.92, p50)) * (1.0 - smoothstep(0.45, 0.80, r.bright as f32 / n));
    let (mut temp, mut tint) = (0, 0);
    let cnt = r.middle as f32;
    let wb_max = t.wb_max as f32;
    if cnt > n * 0.05 {
        let m = [r.sum[0] / cnt, r.sum[1] / cnt, r.sum[2] / cnt];
        let avg = (m[0] + m[1] + m[2]) / 3.0;
        if avg > 0.02 {
            temp = round_clamp((m[2] - m[0]) / avg * mil(t.wb), -wb_max, wb_max);
            tint = round_clamp((m[1] - (m[0] + m[2]) / 2.0) / avg * mil(t.wb), -wb_max, wb_max);
        }
    }
    let slider = (r.veil / VEIL_MAX * 100.0).max(0.0);
    let dehaze = round_clamp(slider * mil(t.dehaze), 0.0, t.dehaze_max as f32);
    let gap = (p01 - dehaze as f32 / 100.0 * VEIL_MAX).max(0.0);
    let blacks = if gap > 0.004 {
        -round_clamp(gap / 0.12 * 100.0 * mil(t.black), 0.0, t.black_max as f32)
    } else if p05 < 0.012 {
        round_clamp((0.012 - p05) / 0.15 * 100.0 * 0.8, 0.0, 12.0)
    } else {
        0
    };
    let gap = (1.0 - p99).max(0.0);
    let whites = if gap > 0.01 {
        round_clamp(gap / 0.15 * 100.0 * mil(t.white), 0.0, t.white_max as f32)
    } else if p95 > 0.985 {
        -round_clamp((p95 - 0.985) / 0.15 * 100.0 * 2.0, 0.0, 12.0)
    } else {
        0
    };
    let exposure = if p50 > 0.004 {
        let ev = (mil(t.mid) / p50).log2();
        let damp = if ev > 0.0 { low_key } else { high_key };
        let top = t.exposure_max as f32;
        round_clamp(ev / 3.0 * 100.0 * mil(t.exposure) * damp, -top, top)
    } else {
        0
    };
    let spread = (p95 - p05).max(0.0);
    let aim = mil(t.spread);
    let top = t.contrast_max as f32;
    let contrast = round_clamp(
        (aim - spread) / aim.max(0.05) * 100.0 * mil(t.contrast),
        -top * 0.5,
        top,
    );
    let floor = mil(t.shadow_floor);
    let shadows = if p25 < floor {
        let v = (floor - p25) / floor * 100.0 * mil(t.shadow) * low_key;
        round_clamp(v, 0.0, t.shadow_max as f32)
    } else {
        0
    };
    let (mut vibrance, mut saturation) = (0, 0);
    let ccnt = r.coloured as f32;
    if ccnt > n * 0.05 {
        let aim = mil(t.chroma);
        let gap = (aim - r.chroma / ccnt) / aim.max(0.05);
        let (v, s) = (t.vibrance_max as f32, t.sat_max as f32);
        vibrance = round_clamp(gap * 100.0 * mil(t.vibrance), -v * 0.6, v);
        saturation = round_clamp(gap * 100.0 * mil(t.sat), -s * 0.6, s);
    }
    let aim = mil(t.local);
    let top = t.clarity_max as f32;
    let clarity = round_clamp(
        (aim - r.local) / aim.max(0.01) * 100.0 * mil(t.clarity),
        -top * 0.6,
        top,
    );
    Grade {
        temp,
        tint,
        exposure,
        contrast,
        brightness: 0,
        shadows,
        whites,
        blacks,
        dehaze,
        vibrance,
        saturation,
        clarity,
    }
}

fn samples() -> Vec<Raw> {
    let mut seed: u64 = 7;
    let mut next = || {
        seed = seed.wrapping_mul(6364136223846793005).wrapping_add(1442695040888963407);
        (seed >> 40) as f32 / (1u64 << 24) as f32
    };
    let mut out = Vec::new();
    for _ in 0..400 {
        let mut p = [next(), next(), next(), next(), next(), next()];
        p.sort_by(|a, b| a.total_cmp(b));
        let n = 200_000;
        out.push(Raw {
            n,
            p,
            dark: (next() * n as f32) as u32,
            bright: (next() * n as f32) as u32,
            middle: (next() * n as f32) as u32,
            sum: [next() * 9e4, next() * 9e4, next() * 9e4],
            veil: next() * 0.3,
            coloured: (next() * n as f32) as u32,
            chroma: next() * 9e4,
            local: next() * 0.2,
        });
    }
    out
}

#[test]
fn advice_agrees_with_single_precision() {
    for p in Preset::ALL {
        let t = Targets::of(p);
        for r in samples() {
            assert_eq!(advise(p, &stats(&r, mil(t.mid))), in_floats(&r, &t));
        }
    }
}

fn plain() -> Raw {
    Raw {
        n: 1000,
        p: [0.0, 0.05, 0.3, 0.45, 0.8, 1.0],
        dark: 10,
        bright: 10,
        middle: 900,
        sum: [400.0, 400.0, 400.0],
        veil: 0.0,
        coloured: 900,
        chroma: 270.0,
        local: 0.055,
    }
}

#[test]
fn bluish_photos_are_warmed_and_orange_ones_cooled() {
    let blue = Raw { sum: [300.0, 400.0, 500.0], ..plain() };
    let orange = Raw { sum: [500.0, 400.0, 300.0], ..plain() };
    assert!(advise(Preset::Bird, &stats(&blue, 0.44)).temp > 0);
    assert!(advise(Preset::Bird, &stats(&orange, 0.44)).temp < 0);
}

#[test]
fn hazy_photos_get_clearer_and_clear_ones_stay() {
    let hazy = Raw { veil: 0.12, p: [0.3, 0.35, 0.45, 0.5, 0.6, 0.65], ..plain() };
    let g = advise(Preset::Landscape, &stats(&hazy, 0.42));
    assert!(g.dehaze > 0 && g.contrast > 0);
    assert_eq!(advise(Preset::Landscape, &stats(&plain(), 0.42)).dehaze, 0);
}

#[test]
fn night_scenes_stay_dark_but_dark_shots_are_lifted() {
    let night = Raw { p: [0.0, 0.0, 0.01, 0.03, 0.6, 0.9], dark: 850, ..plain() };
    let g = advise(Preset::Landscape, &stats(&night, 0.42));
    assert_eq!((g.exposure, g.shadows), (0, 0));
    let dark = Raw { p: [0.02, 0.05, 0.12, 0.22, 0.5, 0.7], dark: 150, ..plain() };
    assert!(advise(Preset::Landscape, &stats(&dark, 0.42)).exposure > 0);
}

#[test]
fn portraits_are_kept_softer_than_landscapes() {
    let flat = Raw { local: 0.001, ..plain() };
    let portrait = advise(Preset::Portrait, &stats(&flat, 0.5)).clarity;
    let landscape = advise(Preset::Landscape, &stats(&flat, 0.42)).clarity;
    assert_eq!((portrait, landscape), (10, 28));
}

fn findings() -> Findings {
    Findings {
        w: 768,
        h: 512,
        sky: num(200_000.0),
        streaks: 100,
        density: num(20.0),
        thick: 5000,
        above: 300_000,
        k: Some(num(1.1)),
        pool: Single { m: 0x80_0000, e: -23 },
        deep: num(0.002),
        glow: num(0.02),
        tone: num(0.5),
    }
}

#[test]
fn found_settings_follow_what_was_measured() {
    let a = auto_params(&findings());
    assert_eq!(a, AutoParams { strength: 69, detail: 71, sky_clean: 75, sky_range: 50 });
    assert_eq!(auto_params(&Findings { w: 31, ..findings() }), AutoParams::default());
    assert_eq!(auto_params(&Findings { sky: num(100.0), ..findings() }), AutoParams::default());
    let clear = auto_params(&Findings { thick: 10, ..findings() });
    assert_eq!(clear.strength, 45);
    let dull = auto_params(&Findings { glow: num(0.004), ..findings() });
    assert_eq!((dull.sky_clean, dull.sky_range), (20, 40));
}

#[test]
fn big_photos_ask_for_more_strength() {
    let pool = 1.3f32;
    let bits = from_bits(pool.to_bits()).unwrap().size;
    let small = strength_for(true, Some(num(1.0)), Single { m: 0x80_0000, e: -23 });
    let big = strength_for(true, Some(num(1.0)), bits);
    assert_eq!(small, (1.0f32 * 1.0 / 1.6 * 100.0).round() as i32);
    assert_eq!(big, (1.0f32 * pool / 1.6 * 100.0).round() as i32);
    assert_eq!(strength_for(true, None, bits), 95);
    assert_eq!(strength_for(true, Some(num(1e30)), bits), 95);
    assert_eq!(strength_for(true, Some(num(0.0)), bits), 45);
    let k = float(pull_for(70, bits));
    assert_eq!(k, 70f32 / 100.0 * 1.6 / pool);
}

#[test]
fn pieces_of_the_search_agree_with_single_precision() {
    for (sum, count) in [(0.0f32, 0u32), (3.3, 10), (40.0, 90), (500.0, 10)] {
        let dense = if count == 0 { 0.0 } else { sum / count as f32 / 0.5 };
        let want = 55 + (dense.clamp(0.0, 1.0) * 40.0).round() as i32;
        assert_eq!(detail_for(num(sum), count), want);
    }
    for (a, b) in [(0u32, 0u32), (3, 300), (2, 300), (7, 699)] {
        assert_eq!(enough_smoke(a, b), a as f32 >= b as f32 * 0.01);
        assert_eq!(scarce(a, b), (a as f32) < b as f32 * 0.02);
    }
    for deep in [0.0f32, 0.001, 0.01] {
        for glow in [0.003f32, 0.0041, 0.01, 0.2] {
            let d = deep.max(0.004 * 0.15);
            let want = if glow <= 0.004 {
                None
            } else {
                Some((((1.0 - d / glow) * 100.0).round() as i32).clamp(20, 75))
            };
            assert_eq!(clean_for(num(deep), num(glow)), want);
            let want = ((glow + deep) * 2.2 - 0.004).max(0.0);
            assert_eq!(float(level_for(num(glow), num(deep))), want);
        }
    }
    for v in [0.0f32, 0.0003, 0.002, 0.3] {
        assert_eq!(float(sky_target(num(v))), v.clamp(0.004 * 0.15, 0.004));
        let c = [v, v * 0.5, v * 0.1];
        let y = 0.2126 * c[0] + 0.7152 * c[1] + 0.0722 * c[2];
        let s = if y > 0.045 { 0.045 / y } else { 1.0 };
        let got = dim((num(c[0]), num(c[1]), num(c[2])));
        assert_eq!([float(got.0), float(got.1), float(got.2)], [c[0] * s, c[1] * s, c[2] * s]);
    }
}

#[test]
fn the_horizon_is_the_last_row_with_sky() {
    let rows: Vec<Signed> = [0.9f32, 1.0, 0.6, 0.25, 0.2, 0.0].iter().map(|v| num(*v)).collect();
    assert_eq!(horizon(&rows), 3);
    assert_eq!(horizon(&vec![num(0.0), num(0.0)]), 1);
}

#[test]
fn clear_depths_stop_at_the_lowest_clear_place() {
    let clear = vec![true, false, true, false, false, true, false, false];
    assert_eq!(clear_depths(&clear, 2, 4), vec![2, 3]);
    assert_eq!(clear_depths(&vec![false; 6], 3, 2), vec![0, 0, 0]);
}
