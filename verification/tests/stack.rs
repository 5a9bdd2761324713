use photo2video::align::align_offset;
use photo2video::tilt::match_layer;
use photo2video::raster::Raster;
use photo2video::signed::{from_bits, Signed};
use photo2video::single::{share_from_bits, Single};
use photo2video::stack::{
    blend, blend_layer, place, put_sample, weights, BlendMode, Guard, Layer, Xform, GUARD_LIFT,
};

fn solid(w: usize, h: usize, c: [u8; 3]) -> Raster {
    let mut d = Vec::new();
    for _ in 0..w * h {
        d.extend_from_slice(&c);
    }
    Raster { w, h, d }
}

fn px(img: &Raster, x: usize, y: usize) -> [u8; 3] {
    [img.get(x, y, 0), img.get(x, y, 1), img.get(x, y, 2)]
}

fn set(img: &mut Raster, x: usize, y: usize, c: [u8; 3]) {
    let i = (y * img.w + x) * 3;
    img.d[i..i + 3].copy_from_slice(&c);
}

fn share(v: f32) -> Single {
    share_from_bits(v.to_bits()).unwrap()
}

fn num(v: f32) -> Signed {
    from_bits(v.to_bits()).unwrap()
}

fn float(v: Signed) -> f32 {
    let size = v.size.m as f64 * (v.size.e as f64).exp2();
    (if v.neg { -size } else { size }) as f32
}

fn layer(img: Raster, mask: Option<Vec<Single>>) -> Layer {
    Layer { img, mask, ox: 0, oy: 0 }
}

/// Weights of a box, in parts of the sides, with hard edges.
fn boxed(w: usize, h: usize, x0: f32, y0: f32, x1: f32, y1: f32) -> Vec<Single> {
    let mut v = Vec::new();
    for y in 0..h {
        for x in 0..w {
            let (u, t) = ((x as f32 + 0.5) / w as f32, (y as f32 + 0.5) / h as f32);
            let inside = u >= x0 && u <= x1 && t >= y0 && t <= y1;
            v.push(share(if inside { 1.0 } else { 0.0 }));
        }
    }
    v
}

#[test]
fn empty_mask_still_blends_even_when_inverted() {
    let g = solid(4, 4, [10, 10, 10]);
    let blank = vec![share(0.0); 16];
    let inverted = weights(blank.clone(), true);
    assert!(inverted.is_none());
    let protect = weights(blank.clone(), true);
    let l = layer(solid(4, 4, [200, 200, 200]), inverted);
    let out = blend(&g, protect.as_ref(), &vec![l], BlendMode::Lighten, None);
    assert_eq!(px(&out, 0, 0), [200, 200, 200]);
    let l = layer(solid(4, 4, [200, 200, 200]), weights(blank, false));
    let base = blend(&g, None, &vec![l], BlendMode::Lighten, None);
    assert_eq!(px(&out, 2, 2), px(&base, 2, 2));
}

#[test]
fn inverted_ground_mask_blocks_everything_outside_it() {
    let g = solid(100, 100, [10, 10, 10]);
    let protect = weights(boxed(100, 100, 0.4, 0.4, 0.6, 0.6), true);
    let l = layer(solid(100, 100, [200, 200, 200]), None);
    let out = blend(&g, protect.as_ref(), &vec![l], BlendMode::Lighten, None);
    assert_eq!(px(&out, 50, 50), [200, 200, 200]);
    assert_eq!(px(&out, 5, 5), [10, 10, 10]);
}

#[test]
fn lighten_takes_the_brighter_channel() {
    let g = solid(4, 4, [10, 200, 30]);
    let l = layer(solid(4, 4, [90, 40, 30]), None);
    let out = blend(&g, None, &vec![l], BlendMode::Lighten, None);
    assert_eq!(px(&out, 0, 0), [90, 200, 30]);
}

#[test]
fn screen_adds_light_without_clipping() {
    let g = solid(4, 4, [0, 128, 255]);
    let l = layer(solid(4, 4, [0, 128, 255]), None);
    let out = blend(&g, None, &vec![l], BlendMode::Screen, None);
    let p = px(&out, 0, 0);
    assert_eq!(p[0], 0);
    assert!((191..=193).contains(&p[1]), "{}", p[1]);
    assert_eq!(p[2], 255);
}

#[test]
fn smaller_layer_sits_centred_at_its_own_size() {
    let g = solid(8, 6, [0, 0, 0]);
    let l = layer(solid(4, 2, [200, 200, 200]), None);
    let out = blend(&g, None, &vec![l], BlendMode::Lighten, None);
    assert_eq!((out.w, out.h), (8, 6));
    assert_eq!(px(&out, 3, 2), [200, 200, 200]);
    assert_eq!(px(&out, 0, 0), [0, 0, 0]);
    assert_eq!(px(&out, 7, 5), [0, 0, 0]);
}

#[test]
fn bigger_layer_is_cropped_by_the_canvas() {
    let g = solid(4, 4, [0, 0, 0]);
    let mut l = solid(8, 8, [0, 0, 0]);
    for y in 2..6 {
        for x in 2..6 {
            set(&mut l, x, y, [200, 200, 200]);
        }
    }
    let out = blend(&g, None, &vec![layer(l, None)], BlendMode::Lighten, None);
    assert_eq!((out.w, out.h), (4, 4));
    for y in 0..4 {
        for x in 0..4 {
            assert_eq!(px(&out, x, y), [200, 200, 200], "({x},{y})");
        }
    }
}

#[test]
fn layer_mask_keeps_that_area_out() {
    let g = solid(100, 100, [0, 0, 0]);
    let mask = weights(boxed(100, 100, 0.0, 0.0, 0.5, 1.0), false);
    let l = layer(solid(100, 100, [255, 255, 255]), mask);
    let out = blend(&g, None, &vec![l], BlendMode::Lighten, None);
    assert_eq!(px(&out, 10, 50), [0, 0, 0]);
    assert_eq!(px(&out, 90, 50), [255, 255, 255]);
}

#[test]
fn an_inverted_layer_mask_keeps_only_that_area() {
    let g = solid(100, 100, [0, 0, 0]);
    let mask = weights(boxed(100, 100, 0.0, 0.0, 0.5, 1.0), true);
    let l = layer(solid(100, 100, [255, 255, 255]), mask);
    let out = blend(&g, None, &vec![l], BlendMode::Lighten, None);
    assert_eq!(px(&out, 10, 50), [255, 255, 255]);
    assert_eq!(px(&out, 90, 50), [0, 0, 0]);
}

#[test]
fn an_inverted_but_empty_mask_changes_nothing() {
    let g = solid(20, 20, [0, 0, 0]);
    let l = layer(solid(20, 20, [200, 200, 200]), weights(vec![share(0.0); 400], true));
    let out = blend(&g, None, &vec![l], BlendMode::Lighten, None);
    assert_eq!(px(&out, 10, 10), [200, 200, 200]);
}

#[test]
fn an_inverted_ground_mask_only_lets_that_area_through() {
    let g = solid(100, 100, [0, 0, 0]);
    let protect = weights(boxed(100, 100, 0.0, 0.0, 0.5, 1.0), true);
    let l = layer(solid(100, 100, [255, 255, 255]), None);
    let out = blend(&g, protect.as_ref(), &vec![l], BlendMode::Lighten, None);
    assert_eq!(px(&out, 10, 50), [255, 255, 255]);
    assert_eq!(px(&out, 90, 50), [0, 0, 0]);
}

#[test]
fn ground_protection_blocks_every_layer() {
    let g = solid(100, 100, [0, 0, 0]);
    let protect = weights(boxed(100, 100, 0.0, 0.5, 1.0, 1.0), false);
    let layers = vec![
        layer(solid(100, 100, [255, 255, 255]), None),
        layer(solid(100, 100, [200, 200, 200]), None),
    ];
    let out = blend(&g, protect.as_ref(), &layers, BlendMode::Lighten, None);
    assert_eq!(px(&out, 50, 90), [0, 0, 0]);
    assert_eq!(px(&out, 50, 10), [255, 255, 255]);
}

fn half_guard() -> Guard {
    Guard {
        sky: vec![share(1.0), share(0.0)],
        w: 1,
        h: 2,
        threshold: GUARD_LIFT,
    }
}

#[test]
fn land_shrugs_off_a_mere_exposure_difference() {
    let g = solid(100, 100, [40, 40, 40]);
    let l = layer(solid(100, 100, [55, 55, 55]), None);
    let out = blend(&g, None, &vec![l], BlendMode::Lighten, Some(&half_guard()));
    assert_eq!(px(&out, 50, 90), [40, 40, 40]);
    assert_eq!(px(&out, 50, 10), [55, 55, 55]);
}

#[test]
fn a_burst_over_the_land_still_gets_through() {
    let g = solid(100, 100, [40, 40, 40]);
    let l = layer(solid(100, 100, [240, 240, 240]), None);
    let out = blend(&g, None, &vec![l], BlendMode::Lighten, Some(&half_guard()));
    assert_eq!(px(&out, 50, 90), [240, 240, 240]);
    assert_eq!(px(&out, 50, 10), [240, 240, 240]);
}

#[test]
fn land_does_not_creep_up_layer_after_layer() {
    let g = solid(40, 40, [40, 40, 40]);
    let layers: Vec<Layer> = (0..8)
        .map(|i| layer(solid(40, 40, [50 + i, 50 + i, 50 + i]), None))
        .collect();
    let out = blend(&g, None, &layers, BlendMode::Screen, Some(&half_guard()));
    assert_eq!(px(&out, 20, 30), [40, 40, 40]);
    assert!(px(&out, 20, 10)[0] > 200);
}

#[test]
fn the_ground_moves_inside_its_own_canvas() {
    let mut g = solid(100, 100, [90, 90, 90]);
    let x = Xform { dx: num(0.5), ..Default::default() }.clamped();
    let (ox, oy) = x.pixels(100, 100);
    place(&mut g, ox, oy);
    assert_eq!((g.w, g.h), (100, 100));
    assert_eq!(px(&g, 10, 50), [0, 0, 0]);
    assert_eq!(px(&g, 80, 50), [90, 90, 90]);
}

#[test]
fn an_unmoved_ground_is_left_alone() {
    let mut g = solid(16, 16, [7, 8, 9]);
    let before = g.d.clone();
    let (ox, oy) = Xform::default().pixels(16, 16);
    place(&mut g, ox, oy);
    assert_eq!((g.w, g.h), (16, 16));
    assert_eq!(g.d, before);
}

#[test]
fn without_the_guard_the_land_brightens() {
    let g = solid(100, 100, [40, 40, 40]);
    let l = layer(solid(100, 100, [55, 55, 55]), None);
    let out = blend(&g, None, &vec![l], BlendMode::Lighten, None);
    assert_eq!(px(&out, 50, 90), [55, 55, 55]);
}

#[test]
fn layer_offset_shifts_what_gets_blended() {
    let g = solid(100, 100, [0, 0, 0]);
    let mut l = solid(100, 100, [0, 0, 0]);
    for y in 0..10 {
        for x in 0..10 {
            set(&mut l, x, y, [255, 255, 255]);
        }
    }
    let x = Xform { dx: num(0.5), dy: num(0.5), ..Default::default() }.clamped();
    let (ox, oy) = x.pixels(100, 100);
    assert_eq!((ox, oy), (50, 50));
    let l = Layer { img: l, mask: None, ox, oy };
    let out = blend(&g, None, &vec![l], BlendMode::Lighten, None);
    assert_eq!(px(&out, 5, 5), [0, 0, 0]);
    assert_eq!(px(&out, 55, 55), [255, 255, 255]);
}

#[test]
fn xform_clamps_degenerate_values() {
    let c = Xform { scale: num(0.0), rot: num(999.0), dx: num(50.0), dy: num(-50.0) }.clamped();
    assert!(!c.scale.less(num(0.2)));
    assert!(!c.rot.less(num(-180.0)) && !num(180.0).less(c.rot));
    assert!(!c.dx.less(num(-2.0)) && !num(2.0).less(c.dx));
    assert!(!c.dy.less(num(-2.0)) && !num(2.0).less(c.dy));
    assert!(Xform::default().is_identity());
    assert!(!Xform { scale: num(1.5), ..Default::default() }.is_identity());
}

#[test]
fn values_that_are_not_finite_count_as_none() {
    assert!(from_bits(f32::NAN.to_bits()).is_none());
    assert!(from_bits(f32::INFINITY.to_bits()).is_none());
    assert!(Xform::from_parts(None, None, None, None).is_identity());
    let x = Xform::from_parts(Some(num(0.25)), None, Some(num(2.0)), Some(num(-4.0)));
    assert_eq!((x.dx, x.scale, x.rot), (num(0.25), num(2.0), num(-4.0)));
}

#[test]
fn small_turns_and_scales_count_as_a_shift() {
    let near = Xform { rot: num(0.0005), scale: num(1.00005), ..Default::default() };
    assert!(near.is_shift_only());
    assert!(!Xform { rot: num(-0.002), ..Default::default() }.is_shift_only());
    assert!(!Xform { scale: num(0.999), ..Default::default() }.is_shift_only());
}

#[test]
fn shifts_round_away_from_zero() {
    let x = Xform { dx: num(0.005), dy: num(-0.005), ..Default::default() };
    assert_eq!(x.pixels(300, 300), (2, -2));
    assert_eq!(x.pixels(299, 299), (1, -1));
}

#[test]
fn alignment_finds_the_shift_and_gives_up_on_a_different_scene() {
    let dots: [(usize, usize); 12] = [
        (6, 108),
        (19, 114),
        (27, 104),
        (48, 112),
        (55, 118),
        (77, 106),
        (91, 115),
        (104, 109),
        (126, 119),
        (141, 105),
        (158, 113),
        (180, 110),
    ];
    let mut ground = solid(200, 150, [4, 4, 8]);
    for (x, y) in dots {
        for dy in 0..6 {
            for dx in 0..6 {
                set(&mut ground, x + dx, y + dy, [200, 180, 90]);
            }
        }
    }
    let (sx, sy) = (7usize, 4usize);
    let mut shifted = solid(200, 150, [4, 4, 8]);
    for (x, y) in dots {
        for dy in 0..6 {
            for dx in 0..6 {
                set(&mut shifted, x + dx + sx, y + dy + sy, [200, 180, 90]);
            }
        }
    }
    for y in 20..60 {
        for x in 40..90 {
            set(&mut shifted, x, y, [255, 240, 120]);
        }
    }
    let d = align_offset(&ground, &shifted).expect("one scene");
    let (px, py) = (d.dx as f32 / d.w as f32 * 200.0, d.dy as f32 / d.h as f32 * 150.0);
    assert!(
        (px + sx as f32).abs() <= 2.0 && (py + sy as f32).abs() <= 2.0,
        "({px:.1}, {py:.1})"
    );
    let x = match_layer(&ground, &shifted).expect("one scene");
    let (mx, my) = (float(x.dx) * 200.0, float(x.dy) * 150.0);
    assert!((mx + sx as f32).abs() <= 2.0 && (my + sy as f32).abs() <= 2.0, "({mx:.1}, {my:.1})");
    assert_eq!(x.scale, Xform::default().scale);

    let mut other = solid(200, 150, [4, 4, 8]);
    for y in 0..150 {
        for x in 0..200 {
            if (x / 7 + y / 7) % 2 == 0 {
                set(&mut other, x, y, [230, 230, 230]);
            }
        }
    }
    assert!(align_offset(&ground, &other).is_none());
}

#[test]
fn no_layers_is_a_copy_of_the_ground() {
    let g = solid(5, 5, [12, 34, 56]);
    let out = blend(&g, None, &Vec::new(), BlendMode::Screen, None);
    assert_eq!(out.d, g.d);
}

#[test]
fn blend_mode_texts() {
    for m in BlendMode::ALL {
        assert!(!m.label().is_empty() && !m.hint().is_empty());
    }
    assert_ne!(BlendMode::Lighten.label(), BlendMode::Screen.label());
}

#[test]
fn mixing_never_darkens_and_commutes() {
    for m in BlendMode::ALL {
        for a in (0..=255u8).step_by(5) {
            for b in (0..=255u8).step_by(5) {
                assert!(m.mix(a, b) >= a && m.mix(a, b) >= b);
                assert_eq!(m.mix(a, b), m.mix(b, a));
            }
            assert_eq!(m.mix(a, 0), a);
            assert_eq!(m.mix(a, 255), 255);
        }
    }
    assert_eq!(BlendMode::Lighten.mix(BlendMode::Lighten.mix(10, 90), 90), 90);
}

#[test]
fn weights_match_single_precision() {
    let mut acc = solid(16, 16, [30, 60, 90]);
    let top = solid(16, 16, [200, 190, 250]);
    let mask: Vec<Single> = (0..256).map(|i| share(i as f32 / 255.0)).collect();
    let protect: Vec<Single> = (0..256).map(|i| share(((i * 7) % 256) as f32 / 300.0)).collect();
    blend_layer(&mut acc, &top, Some(&mask), 0, 0, Some(&protect), None, BlendMode::Screen);
    for i in 0..256usize {
        let e = i as f32 / 255.0;
        let p = ((i * 7) % 256) as f32 / 300.0;
        let k = (1.0 - e) * (1.0 - p);
        for c in 0..3 {
            let (b, t) = ([30u8, 60, 90][c], [200u8, 190, 250][c]);
            let mixed = BlendMode::Screen.mix(b, t);
            let want = if k <= 0.002 {
                b
            } else if k >= 0.998 {
                mixed
            } else {
                (b as f32 + (mixed as f32 - b as f32) * k).round() as u8
            };
            assert_eq!(acc.d[i * 3 + c], want, "pixel {i} channel {c}");
        }
    }
}

#[test]
fn a_single_sample_comes_down_like_a_layer() {
    let guard = half_guard();
    for y in [0usize, 1] {
        for t in [0u8, 45, 71, 90, 200] {
            let mut acc = solid(1, 2, [40, 41, 42]);
            let top = solid(1, 2, [t, t, t]);
            let mask = vec![share(0.25), share(0.6)];
            blend_layer(&mut acc, &top, Some(&mask), 0, 0, None, Some(&guard), BlendMode::Lighten);
            let got = put_sample(
                (40, 41, 42),
                (t, t, t),
                Some(mask[y]),
                None,
                Some(&guard),
                0,
                y,
                1,
                2,
                BlendMode::Lighten,
            );
            assert_eq!([got.0, got.1, got.2], px(&acc, 0, y));
        }
    }
}
