use photo2video::raster::Raster;
use photo2video::sample::{rotate, sample};
use photo2video::signed::{from_bits, Signed};
use photo2video::single::{share_from_bits, Single};
use photo2video::stack::{blend_layer, put_sample, BlendMode, Guard, Xform};
use photo2video::turned::{blend_any, blend_turned, lay_layer, place_any, Angle, LaidLayer};

fn num(v: f32) -> Signed {
    from_bits(v.to_bits()).unwrap()
}

fn share(v: f32) -> Single {
    share_from_bits(v.to_bits()).unwrap()
}

fn solid(w: usize, h: usize, c: [u8; 3]) -> Raster {
    let mut d = Vec::new();
    for _ in 0..w * h {
        d.extend_from_slice(&c);
    }
    Raster { w, h, d }
}

fn noise(w: usize, h: usize) -> Raster {
    let mut s: u32 = 7;
    let mut d = Vec::new();
    for _ in 0..w * h * 3 {
        s = s.wrapping_mul(1_664_525).wrapping_add(1_013_904_223);
        d.push((s >> 24) as u8);
    }
    Raster { w, h, d }
}

fn px(img: &Raster, x: usize, y: usize) -> [u8; 3] {
    [img.get(x, y, 0), img.get(x, y, 1), img.get(x, y, 2)]
}

fn set(img: &mut Raster, x: usize, y: usize, c: [u8; 3]) {
    let i = (y * img.w + x) * 3;
    img.d[i..i + 3].copy_from_slice(&c);
}

fn sample_in_floats(img: &Raster, x: f32, y: f32, start: bool) -> Option<[u8; 3]> {
    let (w, h) = (img.w as i32, img.h as i32);
    let before = if start { x < -0.5 || y < -0.5 } else { !(x > -0.5 && y > -0.5) };
    if before || x > w as f32 - 0.5 || y > h as f32 - 0.5 {
        return None;
    }
    let (x0, y0) = (x.floor() as i32, y.floor() as i32);
    let (fx, fy) = (x - x0 as f32, y - y0 as f32);
    let at = |ix: i32, iy: i32, c: usize| {
        img.get(ix.clamp(0, w - 1) as usize, iy.clamp(0, h - 1) as usize, c) as f32
    };
    let mut out = [0u8; 3];
    for c in 0..3 {
        let top = at(x0, y0, c) + (at(x0 + 1, y0, c) - at(x0, y0, c)) * fx;
        let bot = at(x0, y0 + 1, c) + (at(x0 + 1, y0 + 1, c) - at(x0, y0 + 1, c)) * fx;
        out[c] = (top + (bot - top) * fy).round().clamp(0.0, 255.0) as u8;
    }
    Some(out)
}

#[test]
fn samples_agree_with_single_precision() {
    let img = noise(7, 5);
    for start in [false, true] {
        for i in -12..90 {
            for j in -12..70 {
                let (x, y) = (i as f32 / 12.0, j as f32 / 12.0);
                let got = sample(&img, num(x), num(y), start).map(|t| [t.0, t.1, t.2]);
                assert_eq!(got, sample_in_floats(&img, x, y, start), "{x} {y}");
            }
        }
    }
}

#[test]
fn the_edge_of_a_picture_belongs_to_one_kind_of_sample() {
    let img = solid(4, 4, [9, 8, 7]);
    assert_eq!(sample(&img, num(-0.5), num(0.0), true), Some((9, 8, 7)));
    assert_eq!(sample(&img, num(-0.5), num(0.0), false), None);
    assert_eq!(sample(&img, num(3.5), num(3.5), false), Some((9, 8, 7)));
    assert_eq!(sample(&img, num(3.6), num(3.5), true), None);
}

fn rotate_in_floats(img: &Raster, deg: f32) -> Raster {
    let (sw, sh) = (img.w as f32, img.h as f32);
    let a = deg.to_radians();
    let (sa, ca) = (a.sin(), a.cos());
    let ow = (sw * ca.abs() + sh * sa.abs()).round().max(1.0) as usize;
    let oh = (sw * sa.abs() + sh * ca.abs()).round().max(1.0) as usize;
    let mut out = solid(ow, oh, [0, 0, 0]);
    let (ocx, ocy) = (ow as f32 / 2.0, oh as f32 / 2.0);
    for y in 0..oh {
        for x in 0..ow {
            let (dx, dy) = (x as f32 + 0.5 - ocx, y as f32 + 0.5 - ocy);
            let sx = dx * ca + dy * sa + sw / 2.0 - 0.5;
            let sy = -dx * sa + dy * ca + sh / 2.0 - 0.5;
            if let Some(c) = sample_in_floats(img, sx, sy, true) {
                set(&mut out, x, y, c);
            }
        }
    }
    out
}

#[test]
fn rotation_agrees_with_single_precision() {
    let img = noise(23, 14);
    for deg in [0.5f32, -3.0, 12.5, 45.0, -44.9, 30.0] {
        let want = rotate_in_floats(&img, deg);
        let a = deg.to_radians();
        let got = rotate(&img, num(a.sin()), num(a.cos())).unwrap();
        assert_eq!((got.w, got.h), (want.w, want.h), "{deg}");
        assert_eq!(got.d, want.d, "{deg}");
    }
}

#[test]
fn rotation_by_nothing_changes_nothing() {
    let img = noise(9, 6);
    let got = rotate(&img, num(0.0), num(1.0)).unwrap();
    assert_eq!((got.w, got.h), (9, 6));
    assert_eq!(got.d, img.d);
}

fn xform(dx: f32, dy: f32, scale: f32, rot: f32) -> Xform {
    Xform { dx: num(dx), dy: num(dy), scale: num(scale), rot: num(rot) }.clamped()
}

fn angle(deg: f32) -> Angle {
    let (sin, cos) = deg.to_radians().sin_cos();
    Angle { sin: num(sin), cos: num(cos) }
}

#[test]
fn layer_scale_shrinks_towards_the_centre() {
    let mut out = solid(100, 100, [0, 0, 0]);
    let mut l = solid(100, 100, [0, 0, 0]);
    for y in 0..100 {
        for x in 50..100 {
            set(&mut l, x, y, [255, 255, 255]);
        }
    }
    let f = xform(0.0, 0.0, 0.5, 0.0);
    blend_turned(&mut out, &l, &f, &angle(0.0), None, None, None, BlendMode::Lighten);
    assert_eq!(px(&out, 60, 50), [255, 255, 255]);
    assert_eq!(px(&out, 74, 50), [255, 255, 255]);
    assert_eq!(px(&out, 78, 50), [0, 0, 0]);
    assert_eq!(px(&out, 30, 50), [0, 0, 0]);
    assert_eq!(px(&out, 95, 5), [0, 0, 0]);
}

#[test]
fn layer_rotation_turns_the_content() {
    let mut out = solid(100, 100, [0, 0, 0]);
    let mut l = solid(100, 100, [0, 0, 0]);
    for y in 0..100 {
        for x in 55..100 {
            set(&mut l, x, y, [255, 255, 255]);
        }
    }
    let f = xform(0.0, 0.0, 1.0, 90.0);
    blend_turned(&mut out, &l, &f, &angle(90.0), None, None, None, BlendMode::Lighten);
    assert_eq!(px(&out, 50, 85), [255, 255, 255]);
    assert_eq!(px(&out, 85, 50), [0, 0, 0]);
}

#[test]
fn turned_layers_agree_with_single_precision() {
    let ground = noise(31, 20);
    let top = noise(18, 25);
    let mask: Vec<Single> = (0..18 * 25).map(|i| share((i % 11) as f32 / 10.0)).collect();
    let protect: Vec<Single> = (0..31 * 20).map(|i| share((i % 7) as f32 / 6.0)).collect();
    for (dx, dy, scale, rot) in
        [(0.1f32, -0.2f32, 1.3f32, 17.0f32), (0.0, 0.0, 0.4, -90.0), (0.3, 0.3, 2.5, 179.0)]
    {
        let mut got = Raster { w: 31, h: 20, d: ground.d.clone() };
        let f = xform(dx, dy, scale, rot);
        blend_turned(
            &mut got,
            &top,
            &f,
            &angle(rot),
            Some(&mask),
            Some(&protect),
            None,
            BlendMode::Screen,
        );
        let (sin, cos) = rot.to_radians().sin_cos();
        let inv = 1.0 / scale;
        for y in 0..20 {
            for x in 0..31 {
                let u = x as f32 + 0.5 - 15.5 - dx * 31.0;
                let v = y as f32 + 0.5 - 10.0 - dy * 20.0;
                let su = (u * cos + v * sin) * inv + 9.0 - 0.5;
                let sv = (-u * sin + v * cos) * inv + 12.5 - 0.5;
                let b = px(&ground, x, y);
                let want = match sample_in_floats(&top, su, sv, false) {
                    None => (b[0], b[1], b[2]),
                    Some(t) => {
                        let mx = (su.round() as i64).clamp(0, 17) as usize;
                        let my = (sv.round() as i64).clamp(0, 24) as usize;
                        put_sample(
                            (b[0], b[1], b[2]),
                            (t[0], t[1], t[2]),
                            Some(mask[my * 18 + mx]),
                            Some(protect[y * 31 + x]),
                            None,
                            x,
                            y,
                            31,
                            20,
                            BlendMode::Screen,
                        )
                    }
                };
                let g = px(&got, x, y);
                assert_eq!((g[0], g[1], g[2]), want, "{x} {y}");
            }
        }
    }
}

fn turn(deg: f32) -> Angle {
    let (sin, cos) = deg.to_radians().sin_cos();
    Angle { sin: num(sin), cos: num(cos) }
}

fn lie(dx: f32, dy: f32, scale: f32, rot: f32) -> Xform {
    Xform { dx: num(dx), dy: num(dy), scale: num(scale), rot: num(rot) }
}

#[test]
fn layers_are_moved_or_sampled_as_their_transform_says() {
    let (ground, top) = (solid(12, 8, [10, 20, 30]), noise(9, 7));
    let mut moved = Raster { w: 12, h: 8, d: ground.d.clone() };
    lay_layer(&mut moved, &top, &lie(0.25, -0.25, 1.0, 0.0), &turn(0.0), None, None, None, BlendMode::Lighten);
    let mut want = Raster { w: 12, h: 8, d: ground.d.clone() };
    blend_layer(&mut want, &top, None, 3, -2, None, None, BlendMode::Lighten);
    assert_eq!(moved.d, want.d);
    let x = lie(0.1, 0.0, 1.5, 20.0);
    let mut turned = Raster { w: 12, h: 8, d: ground.d.clone() };
    lay_layer(&mut turned, &top, &x, &turn(20.0), None, None, None, BlendMode::Lighten);
    let mut want = Raster { w: 12, h: 8, d: ground.d.clone() };
    blend_turned(&mut want, &top, &x, &turn(20.0), None, None, None, BlendMode::Lighten);
    assert_eq!(turned.d, want.d);
    assert_ne!(turned.d, moved.d);
    let mut none = Raster { w: 12, h: 8, d: ground.d.clone() };
    let empty = Raster { w: 0, h: 5, d: Vec::new() };
    lay_layer(&mut none, &empty, &x, &turn(20.0), None, None, None, BlendMode::Screen);
    assert_eq!(none.d, ground.d);
}

#[test]
fn stacking_never_darkens_whatever_holds_layers_back() {
    let ground = noise(16, 12);
    let weights: Vec<Single> = (0..192).map(|i| share((i % 11) as f32 / 10.0)).collect();
    let guard = Guard {
        sky: (0..12).map(|i| share(i as f32 / 11.0)).collect(),
        w: 4,
        h: 3,
        threshold: 20,
    };
    for mode in [BlendMode::Lighten, BlendMode::Screen] {
        let layers = || {
            vec![
                LaidLayer {
                    img: noise(16, 12),
                    mask: Some(weights.clone()),
                    xform: lie(0.1, 0.05, 1.0, 0.0),
                    angle: turn(0.0),
                },
                LaidLayer {
                    img: noise(20, 9),
                    mask: None,
                    xform: lie(-0.1, 0.2, 0.7, -33.0),
                    angle: turn(-33.0),
                },
            ]
        };
        for (p, g) in [(None, None), (Some(&weights), None), (None, Some(&guard))] {
            let out = blend_any(&ground, p, &layers(), mode, g);
            assert!(out.d.iter().zip(&ground.d).all(|(a, b)| a >= b));
            assert_ne!(out.d, ground.d);
            let mut one = Raster { w: 16, h: 12, d: ground.d.clone() };
            for l in layers() {
                lay_layer(&mut one, &l.img, &l.xform, &l.angle, l.mask.as_ref(), p, g, mode);
            }
            assert_eq!(one.d, out.d);
        }
    }
}

#[test]
fn a_picture_is_placed_inside_its_own_canvas() {
    let img = noise(10, 6);
    let mut same = Raster { w: 10, h: 6, d: img.d.clone() };
    place_any(&mut same, &Xform::default(), &turn(0.0));
    assert_eq!(same.d, img.d);
    let mut moved = Raster { w: 10, h: 6, d: img.d.clone() };
    place_any(&mut moved, &lie(0.2, 0.0, 1.0, 0.0), &turn(0.0));
    assert_eq!(px(&moved, 0, 3), [0, 0, 0]);
    assert_eq!(px(&moved, 5, 3), px(&img, 3, 3));
    let mut half = Raster { w: 10, h: 6, d: img.d.clone() };
    place_any(&mut half, &lie(0.0, 0.0, 1.0, 180.0), &turn(180.0));
    for c in 0..3 {
        assert!((half.get(2, 1, c) as i32 - img.get(7, 4, c) as i32).abs() <= 1);
    }
}
