use photo2video::blocks::{block_index, block_minima};
use photo2video::field;
use photo2video::haze::{estimate_smoke, linear_of, streak_plane, Light};
use photo2video::maps::Mask;
use photo2video::morph;
use photo2video::raster::Raster;
use photo2video::scale;
use photo2video::signed::{from_bits, Signed};
use photo2video::skies;
use photo2video::sky;

fn num(v: f32) -> Signed {
    from_bits(v.to_bits()).unwrap()
}

fn float(v: Signed) -> f32 {
    let size = v.size.m as f64 * (v.size.e as f64).exp2();
    (if v.neg { -size } else { size }) as f32
}

fn order(v: f32) -> i64 {
    let b = v.to_bits() as i32;
    (b ^ (((b >> 31) as u32) >> 1) as i32) as i64
}

fn unorder(k: i64) -> f32 {
    let k = k as i32;
    f32::from_bits((k ^ (((k >> 31) as u32) >> 1) as i32) as u32)
}

#[derive(Clone)]
struct Plane {
    w: usize,
    h: usize,
    d: Vec<f32>,
}

impl Plane {
    fn new(w: usize, h: usize) -> Self {
        Self { w, h, d: vec![0.0; w * h] }
    }

    fn keys(&self) -> morph::Plane {
        morph::Plane { w: self.w, h: self.h, d: self.d.iter().map(|&v| order(v)).collect() }
    }

    fn from_keys(p: morph::Plane) -> Plane {
        Plane { w: p.w, h: p.h, d: p.d.into_iter().map(unorder).collect() }
    }

    fn map(&self) -> Mask {
        Mask { d: self.d.iter().map(|&v| num(v)).collect(), w: self.w, h: self.h }
    }
}

fn assert_same(m: &Mask, p: &Plane) {
    assert_eq!((m.w, m.h, m.d.len()), (p.w, p.h, p.d.len()));
    for (i, (a, b)) in m.d.iter().zip(&p.d).enumerate() {
        assert!(float(*a) == *b, "cell {i}: {} is not {b}", float(*a));
    }
}

const PEEL: usize = 3;
const STREAK_GAIN: f32 = 2.0;
const STREAK_MAX: f32 = 0.5;
const NIGHT_FLOOR: f32 = 0.004;
const SKY_Y_BASE: f32 = 0.004;
const SKY_BURST: (f32, f32) = (0.15, 0.60);
const SKY_CONTRAST_FLOOR: f32 = 0.02;
const SKY_AREA_CONTRAST: (f32, f32) = (0.05, 0.20);
const SKY_PT_CONTRAST: (f32, f32) = (0.10, 0.40);
const REGION_REACH_MIN: f32 = 0.35;
const REGION_GAP: f32 = 0.08;
const REGION_SEA_MARGIN: f32 = 0.03;
const REGION_RANGE: f32 = 0.4;

fn srgb_to_linear(v: f32) -> f32 {
    if v <= 0.04045 {
        v / 12.92
    } else {
        ((v + 0.055) / 1.055).powf(2.4)
    }
}

fn srgb_lut() -> [f32; 256] {
    let mut lut = [0.0f32; 256];
    for (i, v) in lut.iter_mut().enumerate() {
        *v = srgb_to_linear(i as f32 / 255.0);
    }
    lut
}

fn smoothstep(e0: f32, e1: f32, v: f32) -> f32 {
    if e1 <= e0 {
        return if v >= e1 { 1.0 } else { 0.0 };
    }
    let t = ((v - e0) / (e1 - e0)).clamp(0.0, 1.0);
    t * t * (3.0 - 2.0 * t)
}

fn box_mean(p: &Plane, r: usize) -> Plane {
    let (w, h) = (p.w, p.h);

    let mut out = Plane::new(w, h);
    if w == 0 || h == 0 {
        return out;
    }
    let ring_h = (2 * r + 1).min(h);
    let mut ring = vec![0.0f32; ring_h * w];

    let mut col = vec![0.0f64; w];

    let inv_x: Vec<f64> = (0..w)
        .map(|x| 1.0 / ((x + r + 1).min(w) - x.saturating_sub(r)) as f64)
        .collect();

    let mut loaded = 0usize;
    for y in 0..h {
        if y > r {
            let s = ((y - r - 1) % ring_h) * w;
            for (c, v) in col.iter_mut().zip(&ring[s..s + w]) {
                *c -= *v as f64;
            }
        }
        let y1 = (y + r + 1).min(h);
        while loaded < y1 {
            let s = (loaded % ring_h) * w;
            {
                let row = &p.d[loaded * w..loaded * w + w];
                let dst = &mut ring[s..s + w];
                let mut sum = 0.0f64;

                let mut hi = 0usize;
                for x in 0..w {
                    let x1 = (x + r + 1).min(w);
                    while hi < x1 {
                        sum += row[hi] as f64;
                        hi += 1;
                    }
                    if x > r {
                        sum -= row[x - r - 1] as f64;
                    }
                    dst[x] = (sum * inv_x[x]) as f32;
                }
            }
            for (c, v) in col.iter_mut().zip(&ring[s..s + w]) {
                *c += *v as f64;
            }
            loaded += 1;
        }
        let inv = 1.0 / (y1 - y.saturating_sub(r)) as f64;
        let o = &mut out.d[y * w..y * w + w];
        for (v, c) in o.iter_mut().zip(&col) {
            *v = (*c * inv) as f32;
        }
    }
    out
}

fn max_filter(p: &Plane, r: usize) -> Plane {
    assert!(r < 1 << 28);
    Plane::from_keys(morph::max_filter(&p.keys(), r))
}

fn open_filter(p: &Plane, r: usize) -> Plane {
    assert!(r < 1 << 28);
    Plane::from_keys(morph::open_filter(&p.keys(), r))
}

fn row_max(row: &[f32], r: usize) -> Vec<f32> {
    assert!(r < 1 << 28 && row.len() < 1 << 31);
    let keys = row.iter().map(|&v| order(v)).collect();
    morph::extreme_row(&keys, r, true).into_iter().map(unorder).collect()
}

struct Guide<'a> {
    g: &'a Plane,
    r: usize,
    mean_i: Plane,
    mean_ii: Plane,
}

impl<'a> Guide<'a> {
    fn new(g: &'a Plane, r: usize) -> Self {
        let mut ii = Plane::new(g.w, g.h);
        for (v, s) in ii.d.iter_mut().zip(&g.d) {
            *v = s * s;
        }
        let mean_i = box_mean(g, r);
        let mean_ii = box_mean(&ii, r);
        Self {
            g,
            r,
            mean_i,
            mean_ii,
        }
    }

    fn filter(&self, src: &Plane, eps: f32) -> Plane {
        let (w, h) = (self.g.w, self.g.h);
        let n = self.g.d.len();
        let mut ip = Plane::new(w, h);
        for i in 0..n {
            ip.d[i] = self.g.d[i] * src.d[i];
        }
        let mean_p = box_mean(src, self.r);
        let mean_ip = box_mean(&ip, self.r);

        let mut a = Plane::new(w, h);
        let mut b = Plane::new(w, h);
        for i in 0..n {
            let var = self.mean_ii.d[i] - self.mean_i.d[i] * self.mean_i.d[i];
            let cov = mean_ip.d[i] - self.mean_i.d[i] * mean_p.d[i];
            a.d[i] = cov / (var + eps);
            b.d[i] = mean_p.d[i] - a.d[i] * self.mean_i.d[i];
        }
        let mean_a = box_mean(&a, self.r);
        let mean_b = box_mean(&b, self.r);
        let mut out = Plane::new(w, h);
        for i in 0..n {
            out.d[i] = mean_a.d[i] * self.g.d[i] + mean_b.d[i];
        }
        out
    }
}

fn upscale(p: &Plane, w: usize, h: usize) -> Plane {
    if p.w == w && p.h == h {
        return p.clone();
    }
    let mut out = Plane::new(w, h);
    let sx = p.w as f32 / w as f32;
    let sy = p.h as f32 / h as f32;
    for y in 0..h {
        let fy = ((y as f32 + 0.5) * sy - 0.5).max(0.0);
        let y0 = (fy as usize).min(p.h - 1);
        let y1 = (y0 + 1).min(p.h - 1);
        let wy = fy - y0 as f32;
        for x in 0..w {
            let fx = ((x as f32 + 0.5) * sx - 0.5).max(0.0);
            let x0 = (fx as usize).min(p.w - 1);
            let x1 = (x0 + 1).min(p.w - 1);
            let wx = fx - x0 as f32;
            let v00 = p.d[y0 * p.w + x0];
            let v01 = p.d[y0 * p.w + x1];
            let v10 = p.d[y1 * p.w + x0];
            let v11 = p.d[y1 * p.w + x1];
            let top = v00 + (v01 - v00) * wx;
            let bot = v10 + (v11 - v10) * wx;
            out.d[y * w + x] = top + (bot - top) * wy;
        }
    }
    out
}

fn smooth_1d(v: &[f32], r: usize) -> Vec<f32> {
    let n = v.len();
    let mut pre = vec![0f64; n + 1];
    for i in 0..n {
        pre[i + 1] = pre[i] + v[i] as f64;
    }
    (0..n)
        .map(|i| {
            let lo = i.saturating_sub(r);
            let hi = (i + r + 1).min(n);
            ((pre[hi] - pre[lo]) / (hi - lo) as f64) as f32
        })
        .collect()
}

struct Blocks {
    min: Vec<[f32; 3]>,

    mean: Plane,

    max: Plane,
}

fn downsample(img: &Raster, lut: &[f32; 256], ww: usize, wh: usize) -> Blocks {
    let (fw, fh) = (img.w, img.h);
    let mut b = Blocks {
        min: vec![[1.0f32; 3]; ww * wh],
        mean: Plane::new(ww, wh),
        max: Plane::new(ww, wh),
    };
    let mut n = vec![0u32; ww * wh];
    let block = fw as f32 / ww as f32;

    let r_blur = ((block / 2.0).round() as usize).max(1);
    let low = block_minima(img, ww, wh, r_blur);
    for (i, o) in b.min.iter_mut().enumerate() {
        *o = [lut[low[0][i] as usize], lut[low[1][i] as usize], lut[low[2][i] as usize]];
    }
    for y in 0..fh {
        let by = block_index(y, fh, wh);
        for x in 0..fw {
            let i = by * ww + block_index(x, fw, ww);
            let px = &img.d[(y * fw + x) * 3..(y * fw + x) * 3 + 3];
            let mut lum = 0.0;
            for (c, w) in [0.2126f32, 0.7152, 0.0722].iter().enumerate() {
                lum += w * lut[px[c] as usize];
            }
            b.mean.d[i] += lum;
            if lum > b.max.d[i] {
                b.max.d[i] = lum;
            }
            n[i] += 1;
        }
    }
    for (v, n) in b.mean.d.iter_mut().zip(n) {
        *v /= n.max(1) as f32;
    }
    b
}

fn smoke_in(img: &Raster, detail: usize, lut: &[f32; 256]) -> Vec<Plane> {
    let (fw, fh) = (img.w, img.h);

    let (ww, wh) = work_size(fw, fh, scale::WORK_LONG_EDGE);
    let blocks = downsample(img, lut, ww, wh);
    let lin = &blocks.min;

    let r_open = scale::window(ww.max(wh) as u32, 6, 1000, 2, 8) as usize;
    let mut guide = Plane::new(ww, wh);
    for (i, c) in lin.iter().enumerate() {
        guide.d[i] = 0.2126 * c[0] + 0.7152 * c[1] + 0.0722 * c[2];
    }

    let dt = detail as f32 / 100.0;
    let r_guide = ((ww.max(wh) as f32 * (0.06 - 0.045 * dt)).round() as usize).clamp(3, 60);
    let eps = 10f32.powf(-3.0 - 2.0 * dt);

    let mut resid = Vec::with_capacity(3);
    for c in 0..3 {
        let mut ch = Plane::new(ww, wh);
        for (i, px) in lin.iter().enumerate() {
            ch.d[i] = px[c];
        }
        resid.push(ch);
    }
    let mut layer = vec![Plane::new(ww, wh); 3];
    for _ in 0..PEEL {
        let g = Guide::new(&guide, r_guide);
        for c in 0..3 {
            let s = envelope(&resid[c], &g, r_open, eps);
            for i in 0..ww * wh {
                layer[c].d[i] += s.d[i];

                resid[c].d[i] = (resid[c].d[i] - s.d[i]).max(0.0);
            }
        }

        for i in 0..ww * wh {
            guide.d[i] = 0.2126 * resid[0].d[i] + 0.7152 * resid[1].d[i] + 0.0722 * resid[2].d[i];
        }
    }

    let r_rest = (r_open / 4).max(2);
    for (c, ch) in layer.iter_mut().enumerate() {
        let rest = open_filter(&resid[c], r_rest);
        for (v, r) in ch.d.iter_mut().zip(&rest.d) {
            *v += r;
        }
    }

    let out: Vec<Plane> = layer.iter().map(|s| upscale(s, fw, fh)).collect();
    out
}

fn work_size(fw: usize, fh: usize, edge: u32) -> (usize, usize) {
    let (w, h) = scale::work_size(fw as u32, fh as u32, edge);
    (w as usize, h as usize)
}

fn streak_gate(b: &Blocks, fw: usize, ww: usize, wh: usize) -> Plane {
    let f = scale::gate_factor(fw as u32, ww as u32) as usize;
    let coarse = coarsen(b, f);
    let mut g = streak_fill(&coarse, scale::streak_radius(coarse.mean.w as u32, coarse.mean.h as u32) as usize);
    for v in g.d.iter_mut() {
        *v = (*v * STREAK_GAIN).min(STREAK_MAX);
    }
    upscale(&g, ww, wh)
}

fn coarsen(b: &Blocks, f: usize) -> Blocks {
    let (ww, wh) = (b.mean.w, b.mean.h);
    let low: Vec<Plane> = (0..3)
        .map(|c| {
            let ch = Plane { w: ww, h: wh, d: b.min.iter().map(|v| v[c]).collect() };
            Plane::from_keys(morph::pool(&ch.keys(), f, false))
        })
        .collect();
    let max = Plane::from_keys(morph::pool(&b.max.keys(), f, true));
    let mut mean = Plane::new(max.w, max.h);
    let mut n = vec![0u32; max.w * max.h];
    for y in 0..wh {
        for x in 0..ww {
            let o = (y / f) * max.w + x / f;
            mean.d[o] += b.mean.d[y * ww + x];
            n[o] += 1;
        }
    }
    for (v, n) in mean.d.iter_mut().zip(n) {
        *v /= n.max(1) as f32;
    }
    let min = (0..max.w * max.h).map(|i| [low[0].d[i], low[1].d[i], low[2].d[i]]).collect();
    Blocks { min, mean, max }
}

fn streak_fill(b: &Blocks, r: usize) -> Plane {
    let (ww, wh) = (b.mean.w, b.mean.h);
    let mut v = Plane::new(ww, wh);
    for i in 0..ww * wh {
        let lo = 0.2126 * b.min[i][0] + 0.7152 * b.min[i][1] + 0.0722 * b.min[i][2];
        let span = b.max.d[i] - lo;

        let hot = smoothstep(0.5, 2.0, span / (lo + NIGHT_FLOOR));

        let fill = if span > 1e-6 {
            (b.mean.d[i] - lo) / span
        } else {
            0.0
        };
        v.d[i] = hot * fill;
    }

    box_mean(&v, r)
}

fn envelope(ch: &Plane, guide: &Guide, r_open: usize, eps: f32) -> Plane {
    let opened = open_filter(ch, r_open);
    let mut s = guide.filter(&opened, eps);
    for i in 0..s.d.len() {
        s.d[i] = s.d[i].clamp(0.0, ch.d[i]);
    }
    s
}

fn region_seed(lin: &[[f32; 3]], fw: usize, fh: usize, source_long: u32) -> (Plane, usize) {
    let mut y = Plane::new(fw, fh);
    for (i, c) in lin.iter().enumerate() {
        y.d[i] = 0.2126 * c[0] + 0.7152 * c[1] + 0.0722 * c[2];
    }
    let (r_hi, r_area) = scale::region_radii(fw.max(fh) as u32, source_long);
    let (r_hi, r_area) = (r_hi as usize, r_area as usize);
    let blur_hi = box_mean(&y, r_hi);
    let mut detail = Plane::new(fw, fh);
    for i in 0..fw * fh {
        detail.d[i] = (y.d[i] - blur_hi.d[i]).abs();
    }
    let detail_area = box_mean(&detail, r_area);
    let blur_lo = box_mean(&y, r_area);

    let da1 = SKY_AREA_CONTRAST.0 + REGION_RANGE * SKY_AREA_CONTRAST.1;
    let da0 = da1 * 0.25;
    let mut area = Plane::new(fw, fh);
    for i in 0..fw * fh {
        let contrast = detail_area.d[i] / (blur_lo.d[i] + SKY_CONTRAST_FLOOR);
        area.d[i] = 1.0 - smoothstep(da0, da1, contrast);
    }

    (area, r_area)
}

fn sky_region(lin: &[[f32; 3]], fw: usize, fh: usize, source_long: u32, sea: f32) -> Plane {
    let (area, r_area) = region_seed(lin, fw, fh, source_long);

    let r_gap = ((fw as f32 * REGION_GAP).round() as usize).max(1);
    assert!(r_gap < 1 << 28);
    let reach = sky::reach_down(&area.keys(), r_gap);

    let cut = fh as f32;
    let mut horizon: Vec<f32> = sky::skyline(&reach, order(REGION_REACH_MIN))
        .into_iter()
        .map(|n| n as f32)
        .collect();

    let sea = (sea.clamp(0.0, 1.0) + REGION_SEA_MARGIN) * fh as f32;
    for h in horizon.iter_mut() {
        *h = h.min(sea);
    }

    horizon = row_max(&horizon, r_gap);

    horizon = smooth_1d(&horizon, ((fw as f32 * 0.02).round() as usize).max(1));

    let feather = (fh as f32 * 0.01).max(2.0);
    let mut out = Plane::new(fw, fh);
    for yy in 0..fh {
        for x in 0..fw {
            let h = horizon[x].min(cut);
            out.d[yy * fw + x] = 1.0 - smoothstep(h - feather, h + feather, yy as f32);
        }
    }
    box_mean(&out, r_area)
}

fn sky_mask(
    lin: &[[f32; 3]],
    fw: usize,
    fh: usize,
    range: i32,
    cloud: Option<&Plane>,
    streaks: Option<&Plane>,
) -> Plane {
    let mut y = Plane::new(fw, fh);
    for (i, c) in lin.iter().enumerate() {
        y.d[i] = 0.2126 * c[0] + 0.7152 * c[1] + 0.0722 * c[2];
    }

    let (r_hi, r_area) = scale::detail_radii(fw.max(fh) as u32);
    let (r_hi, r_area) = (r_hi as usize, r_area as usize);
    let blur_hi = box_mean(&y, r_hi);
    let mut detail = Plane::new(fw, fh);
    for i in 0..fw * fh {
        detail.d[i] = (y.d[i] - blur_hi.d[i]).abs();
    }

    let detail_area = box_mean(&detail, r_area);
    let blur_lo = box_mean(&y, r_area);

    let detail_pt = box_mean(&detail, r_hi);

    let contrast = |d: f32, y: f32| d / (y + SKY_CONTRAST_FLOOR);

    let cloud_area = cloud.map(|c| box_mean(c, r_area));
    let cloud_pt = cloud.map(|c| box_mean(c, r_hi));

    let burst = |i: usize| match streaks {
        None => 0.0,
        Some(s) => {
            let (x, y) = (i % fw, i / fw);
            let sx = (x * s.w / fw.max(1)).min(s.w - 1);
            let sy = (y * s.h / fh.max(1)).min(s.h - 1);
            (s.d[sy * s.w + sx] / STREAK_MAX).clamp(0.0, 1.0)
        }
    };

    let rr = range as f32 / 100.0;

    let y1 = SKY_Y_BASE + srgb_to_linear(rr);
    let y0 = y1 * 0.3;
    let da1 = SKY_AREA_CONTRAST.0 + rr * SKY_AREA_CONTRAST.1;
    let da0 = da1 * 0.25;
    let dp1 = SKY_PT_CONTRAST.0 + rr * SKY_PT_CONTRAST.1;
    let dp0 = dp1 * 0.25;

    let mut area = Plane::new(fw, fh);
    for i in 0..fw * fh {
        let dark = 1.0 - smoothstep(y0, y1, blur_lo.d[i]);
        let flat = 1.0 - smoothstep(da0, da1, contrast(detail_area.d[i], blur_lo.d[i]));

        let quiet = 1.0 - smoothstep(SKY_BURST.0, SKY_BURST.1, burst(i));
        area.d[i] = (dark * flat * quiet).max(cloud_area.as_ref().map_or(0.0, |c| c.d[i]));
    }

    let area = Plane::from_keys(sky::reach_down(&area.keys(), 1));
    let area = box_mean(&max_filter(&area, r_area), r_area);

    let mut m = Plane::new(fw, fh);
    for i in 0..fw * fh {
        let dark_pt = 1.0 - smoothstep(y0, y1, blur_hi.d[i]);
        let flat_pt = 1.0 - smoothstep(dp0, dp1, contrast(detail_pt.d[i], blur_hi.d[i]));

        let sky_pt = (dark_pt * flat_pt).max(cloud_pt.as_ref().map_or(0.0, |c| c.d[i]));
        m.d[i] = area.d[i] * sky_pt;
    }

    box_mean(&m, r_hi * 2)
}

fn noise(n: usize, seed: u32) -> Vec<u32> {
    let mut s = seed;
    (0..n)
        .map(|_| {
            s = s.wrapping_mul(1_664_525).wrapping_add(1_013_904_223);
            s >> 8
        })
        .collect()
}

fn plane(w: usize, h: usize, seed: u32) -> Plane {
    Plane { w, h, d: noise(w * h, seed).into_iter().map(|v| (v % 4096) as f32 / 4095.0).collect() }
}

fn scene(w: usize, h: usize) -> Raster {
    let grain = noise(w * h, 5);
    let mut d = Vec::new();
    for y in 0..h {
        for x in 0..w {
            let n = (grain[y * w + x] % 9) as u8;
            let c = if y > h * 3 / 4 {
                [40 + (x * 11 % 90) as u8, 60 + (y * 7 % 90) as u8, 30]
            } else if x > w / 3 && x < w / 2 && (x + y) % 7 == 0 {
                [250, 220, 160]
            } else {
                [20 + (y * 60 / h) as u8, 22 + (y * 40 / h) as u8, 34]
            };
            d.extend_from_slice(&[c[0] + n.min(5), c[1] + n, c[2] + n / 2]);
        }
    }
    Raster { w, h, d }
}

fn light() -> Light {
    Light {
        tones: srgb_lut().iter().map(|&v| num(v)).collect(),
        shares: (0..101).map(|i| num(srgb_to_linear(i as f32 / 100.0))).collect(),
        smoothing: (0..101).map(|i| num(10f32.powf(-3.0 - 2.0 * (i as f32 / 100.0)))).collect(),
    }
}

fn linear(img: &Raster) -> Vec<[f32; 3]> {
    let lut = srgb_lut();
    img.d
        .chunks(3)
        .map(|p| [lut[p[0] as usize], lut[p[1] as usize], lut[p[2] as usize]])
        .collect()
}

#[test]
fn box_means_are_those_of_floats() {
    for (w, h) in [(37, 23), (1, 9), (9, 1), (1, 1)] {
        let p = plane(w, h, 3);
        for r in [0, 1, 3, 8, 60] {
            assert_same(&field::box_mean(&p.map(), r), &box_mean(&p, r));
        }
    }
}

#[test]
fn a_guided_filter_is_that_of_floats() {
    let (g, p) = (plane(31, 22, 7), plane(31, 22, 8));
    for (r, eps) in [(2, 1e-3f32), (5, 1e-5), (40, 1e-2)] {
        let want = Guide::new(&g, r).filter(&p, eps);
        assert_same(&field::Guide::new(g.map(), r).filter(&p.map(), num(eps)), &want);
    }
}

#[test]
fn enlarging_is_that_of_floats() {
    let p = plane(13, 9, 11);
    for (w, h) in [(13, 9), (40, 31), (14, 9), (7, 5)] {
        assert_same(&field::upscale(&p.map(), w, h), &upscale(&p, w, h));
    }
}

#[test]
fn order_keys_keep_the_order_of_numbers() {
    let v = [-3.5f32, -1.0, -1e-3, 0.0, 1e-4, 0.25, 0.25000003, 7.0];
    let m = Mask { d: v.iter().map(|&x| num(x)).collect(), w: v.len(), h: 1 };
    let k = field::keys_of(&m).d;
    assert!(k.windows(2).all(|p| p[0] < p[1]));
    assert_eq!(k[3], 0);
}

#[test]
fn morphology_of_maps_is_that_of_floats() {
    let p = plane(29, 17, 21);
    for r in [0, 1, 4, 30] {
        assert_same(&field::max_filter(&p.map(), r), &max_filter(&p, r));
        assert_same(&field::open_filter(&p.map(), r), &open_filter(&p, r));
    }
}

#[test]
fn smoke_is_found_as_in_floats() {
    let img = scene(96, 64);
    for detail in [0, 60, 100] {
        let want = smoke_in(&img, detail, &srgb_lut());
        let got = estimate_smoke(&img, &light(), scale::WORK_LONG_EDGE, detail);
        let (w, h) = (got.w, got.h);
        for (d, p) in [got.r, got.g, got.b].into_iter().zip(&want) {
            assert_same(&Mask { d, w, h }, p);
        }
    }
}

#[test]
fn smoke_of_a_large_photo_is_found_on_a_smaller_copy_as_in_floats() {
    let img = scene(1300, 40);
    let want = smoke_in(&img, 60, &srgb_lut());
    let got = estimate_smoke(&img, &light(), scale::WORK_LONG_EDGE, 60);
    assert_same(&Mask { d: got.g, w: got.w, h: got.h }, &want[1]);
}

#[test]
fn streaks_are_found_as_in_floats() {
    let img = scene(300, 120);
    let (ww, wh) = work_size(img.w, img.h, 100);
    let want = streak_gate(&downsample(&img, &srgb_lut(), ww, wh), img.w, ww, wh);
    assert_same(&streak_plane(&img, &light(), 100), &want);
}

#[test]
fn the_sky_is_told_as_in_floats() {
    let img = scene(90, 70);
    let (lin, light) = (linear(&img), light());
    let y = linear_of(&img, &light).light();
    let cloud = plane(90, 70, 13);
    let streaks = plane(30, 20, 14);
    for range in [0, 40, 70, 100] {
        let want = sky_mask(&lin, 90, 70, range, None, None);
        assert_same(&skies::sky_mask(&y, range as usize, &light, None, None), &want);
        let want = sky_mask(&lin, 90, 70, range, Some(&cloud), Some(&streaks));
        let got = skies::sky_mask(
            &y,
            range as usize,
            &light,
            Some(&cloud.map()),
            Some(&streaks.map()),
        );
        assert_same(&got, &want);
    }
}

#[test]
fn the_skyline_is_drawn_as_in_floats() {
    let img = scene(110, 80);
    let lin = linear(&img);
    let y = linear_of(&img, &light()).light();
    for (source, sea) in [(110, 1.0f32), (6000, 0.4), (110, 0.0)] {
        assert_same(&skies::region_seed(&y, source), &region_seed(&lin, 110, 80, source).0);
        let want = sky_region(&lin, 110, 80, source, sea);
        assert_same(&skies::sky_region(&y, source, num(sea)), &want);
    }
}
