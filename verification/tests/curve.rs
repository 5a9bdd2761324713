use photo2video::curve::{curve_points, tone_curve, Spline};
use photo2video::grade::Grade;
use photo2video::signed::{from_bits, Signed};

fn num(v: f32) -> Signed {
    from_bits(v.to_bits()).unwrap()
}

fn float(v: Signed) -> f32 {
    let size = v.size.m as f64 * (v.size.e as f64).exp2();
    (if v.neg { -size } else { size }) as f32
}

fn tones(blacks: i32, shadows: i32, whites: i32) -> Grade {
    Grade {
        temp: 0,
        tint: 0,
        exposure: 0,
        contrast: 0,
        brightness: 0,
        shadows,
        whites,
        blacks,
        dehaze: 0,
        vibrance: 0,
        saturation: 0,
        clarity: 0,
    }
}

fn points_in_floats(g: &Grade) -> Vec<(f32, f32)> {
    let mut pts: Vec<(f32, f32)> = Vec::new();
    if g.blacks < 0 {
        pts.push((0.0, 0.0));
        pts.push((-g.blacks as f32 / 100.0 * 0.12, 0.0));
    } else {
        pts.push((0.0, g.blacks as f32 / 100.0 * 0.15));
    }
    if g.shadows != 0 {
        pts.push((0.25, (0.25 + g.shadows as f32 / 100.0 * 0.15).clamp(0.0, 1.0)));
    }
    if g.whites > 0 {
        pts.push((1.0 - g.whites as f32 / 100.0 * 0.15, 1.0));
        pts.push((1.0, 1.0));
    } else {
        pts.push((1.0, 1.0 + g.whites as f32 / 100.0 * 0.15));
    }
    pts
}

fn spline_in_floats(pts: &[(f32, f32)], x: f32) -> f32 {
    let (mut xs, mut ys): (Vec<f32>, Vec<f32>) = (Vec::new(), Vec::new());
    for &(x, y) in pts {
        if xs.last().is_none_or(|l| x - l > 1e-5) {
            xs.push(x);
            ys.push(y);
        }
    }
    let n = xs.len();
    let mut y2 = vec![0.0f32; n];
    let mut u = vec![0.0f32; n];
    for i in 1..n - 1 {
        let sig = (xs[i] - xs[i - 1]) / (xs[i + 1] - xs[i - 1]);
        let p = sig * y2[i - 1] + 2.0;
        y2[i] = (sig - 1.0) / p;
        let d = (ys[i + 1] - ys[i]) / (xs[i + 1] - xs[i])
            - (ys[i] - ys[i - 1]) / (xs[i] - xs[i - 1]);
        u[i] = (6.0 * d / (xs[i + 1] - xs[i - 1]) - sig * u[i - 1]) / p;
    }
    for k in (0..n - 1).rev() {
        y2[k] = y2[k] * y2[k + 1] + u[k];
    }
    let mut hi = 1;
    while hi < n - 1 && xs[hi] < x {
        hi += 1;
    }
    let lo = hi - 1;
    let h = xs[hi] - xs[lo];
    let a = (xs[hi] - x) / h;
    let b = (x - xs[lo]) / h;
    a * ys[lo] + b * ys[hi] + ((a * a * a - a) * y2[lo] + (b * b * b - b) * y2[hi]) * h * h / 6.0
}

fn spots(pts: &[(f32, f32)]) -> Vec<(Signed, Signed)> {
    pts.iter().map(|&(x, y)| (num(x), num(y))).collect()
}

#[test]
fn spline_passes_through_its_control_points() {
    let pts = [(0.0f32, 0.1f32), (0.25, 0.4), (1.0, 1.0)];
    let sp = Spline::new(&spots(&pts));
    for (x, y) in pts {
        assert!((float(sp.eval(num(x))) - y).abs() < 1e-4, "({x}, {y})");
    }
}

#[test]
fn splines_agree_with_single_precision() {
    let rows: [&[(f32, f32)]; 4] = [
        &[(0.0, 0.1), (0.25, 0.4), (1.0, 1.0)],
        &[(0.0, 0.0), (1.0, 0.9)],
        &[(0.0, 0.0), (0.06, 0.0), (0.25, 0.19), (0.93, 1.0), (1.0, 1.0)],
        &[(0.0, 0.2), (0.000001, 0.9), (0.5, 0.3), (0.5, 0.8), (0.75, 0.1), (1.0, 0.6)],
    ];
    for pts in rows {
        let sp = Spline::new(&spots(pts));
        for i in 0..=100 {
            let x = i as f32 / 100.0;
            assert_eq!(float(sp.eval(num(x))), spline_in_floats(pts, x), "{pts:?} {x}");
        }
    }
}

#[test]
fn short_curves_are_the_line_itself_or_flat() {
    let none = Spline::new(&Vec::new());
    assert_eq!(none.eval(num(0.375)), num(0.375));
    let one = Spline::new(&spots(&[(0.5, 0.75)]));
    assert_eq!(one.eval(num(0.125)), num(0.75));
}

#[test]
fn settings_give_the_points_of_the_curve() {
    for (b, s, w) in [(0, 0, 0), (-40, 30, 20), (35, -60, -80), (100, 100, 100), (-100, -100, -100)] {
        let g = tones(b, s, w);
        let got: Vec<(f32, f32)> =
            curve_points(&g).iter().map(|p| (float(p.0), float(p.1))).collect();
        assert_eq!(got, points_in_floats(&g));
    }
    assert_eq!(curve_points(&tones(0, 0, 0)).len(), 2);
    assert_eq!(curve_points(&tones(-1, 1, 1)).len(), 5);
}

#[test]
fn tone_curves_agree_with_single_precision() {
    for (b, s, w) in [(0, 0, 0), (-40, 30, 20), (35, -60, -80), (100, 100, 100), (-100, -100, -100)] {
        let g = tones(b, s, w);
        let pts = points_in_floats(&g);
        let got = tone_curve(&g);
        assert_eq!(got.len(), 1025);
        for (i, v) in got.iter().enumerate() {
            let want = spline_in_floats(&pts, i as f32 / 1024.0).clamp(0.0, 1.0);
            assert_eq!(float(*v), want, "{b} {s} {w} at {i}");
        }
    }
}
