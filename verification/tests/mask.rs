use photo2video::mask::{shape_weights, ShapeMask};
use photo2video::signed::{from_bits, Signed};
use photo2video::smoke::{Brush, Linear, Object, Radial, Region, Shape};
use photo2video::stroke::dist_to_segment;

fn num(v: f32) -> Signed {
    from_bits(v.to_bits()).unwrap()
}

/// The number as single precision holds it.
fn float(v: Signed) -> f32 {
    let size = v.size.m as f64 * (v.size.e as f64).exp2();
    (if v.neg { -size } else { size }) as f32
}

fn mask_at(shapes: Vec<Shape>, feather: i32, w: u32, h: u32, x: u32, y: u32) -> f32 {
    mask_at_d(shapes, feather, 100, w, h, x, y)
}

fn mask_at_d(shapes: Vec<Shape>, feather: i32, density: i32, w: u32, h: u32, x: u32, y: u32) -> f32 {
    float(ShapeMask::new(&shapes, feather, density, w, h).at(x, y))
}

fn rect(x0: f32, y0: f32, x1: f32, y1: f32) -> Shape {
    Shape::Rect(Region { x0: num(x0), y0: num(y0), x1: num(x1), y1: num(y1) })
}

fn linear(x0: f32, y0: f32, x1: f32, y1: f32) -> Shape {
    Shape::Linear(Linear { x0: num(x0), y0: num(y0), x1: num(x1), y1: num(y1) })
}

fn brush(pts: &[[f32; 2]], radius: f32) -> Shape {
    Shape::Brush(Brush {
        pts: pts.iter().map(|p| (num(p[0]), num(p[1]))).collect(),
        radius: num(radius),
    })
}

fn stroke() -> Shape {
    brush(&[[0.2, 0.5], [0.8, 0.5]], 0.05)
}

#[test]
fn linear_gradient_fades_from_start_to_end() {
    let s = vec![linear(0.5, 0.2, 0.5, 0.8)];
    let at = |y: u32| mask_at(s.clone(), 0, 100, 100, 50, y);
    assert!(at(5) > 0.99, "{}", at(5));
    assert!(at(95) < 0.01, "{}", at(95));
    assert!((at(50) - 0.5).abs() < 0.05, "{}", at(50));
    assert!(at(30) > at(50) && at(50) > at(70));
    assert!((at(50) - mask_at(s.clone(), 0, 100, 100, 5, 50)).abs() < 1e-4);
}

#[test]
fn radial_gradient_covers_the_ellipse() {
    let r = Radial { cx: num(0.5), cy: num(0.5), rx: num(0.3), ry: num(0.2), invert: false };
    let at = |r: Radial, x: u32, y: u32| mask_at(vec![Shape::Radial(r)], 0, 100, 100, x, y);
    assert!(at(r, 50, 50) > 0.99);
    assert!(at(r, 95, 50) < 0.01);
    assert!(at(r, 50, 15) < 0.01);
    assert!(at(r, 25, 50) > 0.5);
    let inv = Radial { invert: true, ..r };
    assert!(at(inv, 50, 50) < 0.01);
    assert!(at(inv, 95, 50) > 0.99);
}

#[test]
fn brush_covers_what_it_paints() {
    let b = vec![stroke()];
    assert!(mask_at(b.clone(), 0, 100, 100, 50, 50) > 0.99);
    assert!(mask_at(b.clone(), 0, 100, 100, 50, 90) < 0.01);
    assert!(mask_at(b.clone(), 0, 100, 100, 50, 56) < 0.01);
    assert!(mask_at(b, 0, 100, 100, 5, 50) < 0.01);
}

#[test]
fn density_only_applies_to_the_brush() {
    let b = vec![stroke()];
    let w = mask_at_d(b.clone(), 0, 80, 100, 100, 50, 50);
    assert!((w - 0.8).abs() < 0.01, "{w}");
    assert!(mask_at_d(b, 0, 80, 100, 100, 50, 90) < 0.01);
    assert!(mask_at_d(Vec::new(), 0, 80, 100, 100, 50, 50) > 0.99);
    assert!(mask_at_d(vec![rect(0.1, 0.1, 0.9, 0.9)], 0, 20, 100, 100, 50, 50) > 0.99);
    assert!(mask_at_d(vec![linear(0.5, 0.2, 0.5, 0.8)], 0, 20, 100, 100, 50, 5) > 0.99);
}

#[test]
fn brush_strokes_stack_but_one_stroke_does_not() {
    let one = vec![stroke()];
    let two = vec![stroke(), stroke()];
    assert!((mask_at_d(one, 0, 80, 100, 100, 50, 50) - 0.8).abs() < 0.01);
    assert!(mask_at_d(two, 0, 80, 100, 100, 50, 50) > 0.99);
    let looped = vec![brush(&[[0.2, 0.5], [0.8, 0.5], [0.2, 0.5]], 0.05)];
    let w = mask_at_d(looped, 0, 80, 100, 100, 50, 50);
    assert!((w - 0.8).abs() < 0.01, "{w}");
}

#[test]
fn flat_shapes_stack_at_full_density() {
    let s = vec![rect(0.0, 0.0, 0.3, 1.0), rect(0.7, 0.0, 1.0, 1.0)];
    assert!(mask_at_d(s.clone(), 0, 20, 100, 100, 10, 50) > 0.99);
    assert!(mask_at_d(s.clone(), 0, 20, 100, 100, 90, 50) > 0.99);
    assert!(mask_at_d(s, 0, 20, 100, 100, 50, 50) < 0.01);
}

#[test]
fn brush_adds_on_top_of_a_box() {
    let s = vec![rect(0.0, 0.0, 0.3, 1.0), stroke()];
    assert!(mask_at_d(s.clone(), 0, 80, 100, 100, 10, 10) > 0.99);
    assert!((mask_at_d(s.clone(), 0, 80, 100, 100, 70, 50) - 0.8).abs() < 0.01);
    assert!(mask_at_d(s, 0, 80, 100, 100, 25, 50) > 0.99);
}

fn smoothstep(e0: f32, e1: f32, v: f32) -> f32 {
    if e1 <= e0 {
        return if v >= e1 { 1.0 } else { 0.0 };
    }
    let t = ((v - e0) / (e1 - e0)).clamp(0.0, 1.0);
    t * t * (3.0 - 2.0 * t)
}

fn axis_in_floats(v: f32, lo: f32, hi: f32, f: f32) -> f32 {
    let d = if v < lo {
        (v - (lo - f)) / f
    } else if v > hi {
        ((hi + f) - v) / f
    } else {
        return 1.0;
    };
    let t = d.clamp(0.0, 1.0);
    t * t * (3.0 - 2.0 * t)
}

#[test]
fn boxes_agree_with_single_precision() {
    let (w, h) = (37u32, 23u32);
    for feather in [0, 7, 40, 100] {
        let m = vec![rect(0.21, 0.13, 0.77, 0.61)];
        let mask = ShapeMask::new(&m, feather, 100, w, h);
        let f = feather as f32 / 100.0;
        let b = [0.21 * w as f32, 0.13 * h as f32, 0.77 * w as f32, 0.61 * h as f32];
        let short = (b[2] - b[0]).min(b[3] - b[1]).max(1.0);
        let soft = (short * f * 0.5).max(0.5);
        for y in 0..h {
            for x in 0..w {
                let (px, py) = (x as f32 + 0.5, y as f32 + 0.5);
                let want =
                    axis_in_floats(px, b[0], b[2], soft) * axis_in_floats(py, b[1], b[3], soft);
                let want = (0.0 + want).clamp(0.0, 1.0);
                assert_eq!(float(mask.at(x, y)), want, "({x},{y}) {feather}");
            }
        }
    }
}

#[test]
fn gradients_and_ellipses_agree_with_single_precision() {
    let (w, h) = (41u32, 29u32);
    let (wf, hf) = (w as f32, h as f32);
    let l = vec![linear(0.11, 0.83, 0.71, 0.27)];
    let lines = ShapeMask::new(&l, 30, 100, w, h);
    let (ox, oy) = (0.11 * wf, 0.83 * hf);
    let (dx, dy) = (0.71 * wf - ox, 0.27 * hf - oy);
    let len = (dx * dx + dy * dy).sqrt().max(1e-3);
    let (ux, uy) = (dx / len, dy / len);
    let e = vec![Shape::Radial(Radial {
        cx: num(0.43),
        cy: num(0.58),
        rx: num(0.37),
        ry: num(0.22),
        invert: true,
    })];
    let round = ShapeMask::new(&e, 30, 100, w, h);
    let (rx, ry) = ((0.37 * wf).max(0.5), (0.22 * hf).max(0.5));
    let inner = (1.0 - 0.3f32).clamp(0.0, 1.0 - 0.5 / rx.min(ry));
    for y in 0..h {
        for x in 0..w {
            let (px, py) = (x as f32 + 0.5, y as f32 + 0.5);
            let t = ((px - ox) * ux + (py - oy) * uy) / len;
            let want = 1.0 - smoothstep(0.0, 1.0, t);
            assert_eq!(float(lines.at(x, y)), want.clamp(0.0, 1.0), "({x},{y})");
            let (ex, ey) = ((px - 0.43 * wf) / rx, (py - 0.58 * hf) / ry);
            let d = (ex * ex + ey * ey).sqrt();
            let want = 1.0 - (1.0 - smoothstep(inner, 1.0, d));
            assert_eq!(float(round.at(x, y)), want.clamp(0.0, 1.0), "({x},{y})");
        }
    }
}

fn segment_in_floats(px: f32, py: f32, a: [f32; 2], b: [f32; 2]) -> f32 {
    let (vx, vy) = (b[0] - a[0], b[1] - a[1]);
    let l2 = vx * vx + vy * vy;
    let t = if l2 > 1e-9 {
        (((px - a[0]) * vx + (py - a[1]) * vy) / l2).clamp(0.0, 1.0)
    } else {
        0.0
    };
    let (dx, dy) = (px - (a[0] + t * vx), py - (a[1] + t * vy));
    (dx * dx + dy * dy).sqrt()
}

#[test]
fn distances_agree_with_single_precision() {
    let vals = [-3.7f32, 0.0, 0.3, 1.0, 7.25, 40.1, 1023.9];
    for &px in &vals {
        for &ax in &vals {
            for &bx in &vals {
                let (a, b) = ([ax, 2.5], [bx, -1.25]);
                let want = segment_in_floats(px, 5.5, a, b);
                let got = dist_to_segment(
                    (num(px), num(5.5)),
                    (num(a[0]), num(a[1])),
                    (num(b[0]), num(b[1])),
                );
                assert_eq!(float(got), want, "{px} {ax} {bx}");
            }
        }
    }
}

#[test]
fn strokes_agree_with_single_precision() {
    let (w, h) = (31u32, 17u32);
    let pts = [[0.13f32, 0.2], [0.71, 0.65], [0.4, 0.9]];
    let shapes = vec![brush(&pts, 0.09)];
    let mask = ShapeMask::new(&shapes, 45, 70, w, h);
    let f = 45f32 / 100.0;
    let r = (0.09 * 31f32).max(0.75);
    let inner = (r * (1.0 - f)).min(r - 0.75).max(0.0);
    let scaled: Vec<[f32; 2]> = pts.iter().map(|q| [q[0] * w as f32, q[1] * h as f32]).collect();
    for y in 0..h {
        for x in 0..w {
            let mut one = 0f32;
            for i in 0..3 {
                let a = scaled[i];
                let c = scaled.get(i + 1).copied().unwrap_or(a);
                let d = segment_in_floats(x as f32 + 0.5, y as f32 + 0.5, a, c);
                let v = if d <= inner {
                    1.0
                } else if d >= r {
                    continue;
                } else {
                    let t = (r - d) / (r - inner);
                    t * t * (3.0 - 2.0 * t)
                };
                if v > one {
                    one = v;
                }
            }
            let want = (0.0 + one * (70f32 / 100.0)).clamp(0.0, 1.0);
            assert_eq!(float(mask.at(x, y)), want, "({x},{y})");
        }
    }
}

#[test]
fn objects_cover_what_their_cells_say() {
    let mut mask = vec![0u8; 64];
    for y in 2..6 {
        for x in 2..6 {
            mask[y * 8 + x] = 255;
        }
    }
    let o = Object {
        raw: mask.clone(),
        mask,
        w: 8,
        h: 8,
        area: Region { x0: num(0.25), y0: num(0.25), x1: num(0.75), y1: num(0.75) },
        feather: 15,
        edge: 0,
    };
    let at = |x: u32, y: u32| mask_at(vec![Shape::Object(o.clone())], 0, 80, 80, x, y);
    assert!(at(40, 40) > 0.99);
    assert_eq!(at(0, 0), 0.0);
    assert_eq!(at(22, 22), 0.0);
    assert!(at(30, 40) > 0.0 && at(30, 40) < 1.0);
}

#[test]
fn weights_of_no_shapes_cover_nothing() {
    assert!(shape_weights(Vec::new(), 0, 100, 3, 2).iter().all(|v| float(*v) == 0.0));
    let tiny = rect(0.5, 0.2, 0.5005, 0.9);
    assert!(shape_weights(vec![tiny], 0, 100, 3, 2).iter().all(|v| float(*v) == 0.0));
    assert!(shape_weights(vec![stroke()], 0, 100, 0, 9).is_empty());
    let all = shape_weights(vec![rect(1.0, 1.0, 0.0, 0.0)], 0, 100, 3, 2);
    assert_eq!(all.len(), 6);
    assert!(all.iter().all(|v| float(*v) == 1.0));
}
