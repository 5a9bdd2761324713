use photo2video::object::{
    asked_cells, edge_reach, feather_reach, grow, reach_of, search_window, shrink, solid_parts,
    whole_shape, work_grid,
};
use photo2video::scale::{gate_factor, region_radii, streak_radius, window, work_size};
use photo2video::signed::{from_bits, Signed};
use photo2video::smoke::{
    same_field_params, AutoParams, Brush, Linear, Object, Radial, Region, Shape, SmokeParams,
    MAX_PROTECT, MAX_SHAPES,
};

fn num(v: f32) -> Signed {
    from_bits(v.to_bits()).unwrap()
}

fn region(x0: f32, y0: f32, x1: f32, y1: f32) -> Region {
    Region { x0: num(x0), y0: num(y0), x1: num(x1), y1: num(y1) }
}

#[test]
fn the_preview_measures_the_sky_at_the_same_scale_as_the_output() {
    assert_eq!(region_radii(10007, 10007), (6, 40));
    assert_eq!(region_radii(1600, 1600), (2, 16));
    assert_eq!(region_radii(200, 200), (1, 4));
    let (hi, area) = region_radii(1600, 10007);
    assert_eq!((hi, area), (1, 6));
    let k = 1600.0 / 10007.0f64;
    assert!((hi as f64 - 6.0 * k).abs() <= 0.5);
    assert!((area as f64 - 40.0 * k).abs() <= 0.5);
}

#[test]
fn params_are_clamped_into_range() {
    let p = SmokeParams {
        strength: 500,
        detail: -20,
        feather: -5,
        tolerance: 400,
        ..Default::default()
    }
    .clamped();
    assert_eq!((p.strength, p.detail, p.feather, p.tolerance), (100, 0, 0, 100));
}

#[test]
fn region_is_normalized_whichever_way_it_is_dragged() {
    let forward = region(0.2, 0.3, 0.8, 0.9);
    let backward = region(0.8, 0.9, 0.2, 0.3);
    assert_eq!(forward.normalized(), backward.normalized());
}

#[test]
fn degenerate_region_falls_back_to_whole_image() {
    let p = SmokeParams {
        shapes: vec![Shape::Rect(region(0.5, 0.2, 0.5005, 0.9))],
        ..Default::default()
    }
    .clamped();
    assert!(p.shapes.is_empty());
}

#[test]
fn protect_list_rejects_duplicates_and_overflow() {
    let mut p = SmokeParams::default();
    assert!(p.add_protect([10, 20, 30]));
    assert!(!p.add_protect([10, 20, 30]));
    for i in 1..MAX_PROTECT {
        assert!(p.add_protect([i as u8, 0, 0]));
    }
    assert!(!p.add_protect([9, 9, 9]));
    assert_eq!(p.protect_colors().len(), MAX_PROTECT);
    p.remove_protect(0);
    assert_eq!(p.protect_colors().len(), MAX_PROTECT - 1);
    assert!(p.add_protect([9, 9, 9]));
    assert_eq!(p.protect_colors()[MAX_PROTECT - 1], (MAX_PROTECT - 1, [9, 9, 9]));
    p.clear_protect();
    assert!(!p.has_protect());
}

#[test]
fn colours_are_listed_in_the_order_in_which_they_were_added() {
    let mut p = SmokeParams::default();
    assert!(p.add_protect([1, 0, 0]) && p.add_protect([2, 0, 0]));
    p.remove_protect(0);
    assert_eq!(p.protect_colors(), vec![(1, [2, 0, 0])]);
    assert!(p.add_protect([3, 0, 0]));
    assert_eq!(p.protect_colors(), vec![(1, [2, 0, 0]), (2, [3, 0, 0])]);
    for c in 1..=6u8 {
        assert!(p.add_cloud([c, c, c]));
    }
    p.remove_cloud(3);
    assert!(!p.add_cloud([6, 6, 6]) && p.add_cloud([4, 4, 4]));
    let clouds: Vec<(usize, u8)> = p.cloud_colors().iter().map(|e| (e.0, e.1[0])).collect();
    assert_eq!(clouds, vec![(0, 1), (1, 2), (2, 3), (3, 5), (4, 6), (5, 4)]);
    p.cloud = [None, Some([7; 3]), None, Some([8; 3]), None, None];
    assert!(p.add_cloud([9; 3]));
    assert_eq!(p.cloud_colors(), vec![(1, [7; 3]), (3, [8; 3]), (4, [9; 3])]);
}

#[test]
fn cloud_colours_have_places_of_their_own() {
    let mut p = SmokeParams::default();
    assert!(p.add_cloud([1, 2, 3]) && !p.add_cloud([1, 2, 3]) && p.add_protect([1, 2, 3]));
    assert_eq!(p.cloud_colors(), vec![(0, [1, 2, 3])]);
    p.remove_cloud(99);
    assert!(p.has_cloud());
    p.remove_cloud(0);
    assert!(!p.has_cloud() && p.has_protect());
    p.add_cloud([4, 4, 4]);
    p.clear_cloud();
    assert!(!p.has_cloud());
}

#[test]
fn regions_are_cut_off_at_the_photo() {
    assert_eq!(region(-0.5, 0.25, 1.5, 2.0).normalized(), region(0.0, 0.25, 1.0, 1.0));
    assert!(region(0.0, 0.0, 0.02, 0.02).is_usable());
    assert!(!region(0.3, 0.0, 0.305, 0.5).is_usable());
    assert!(!region(0.5, 0.5, 0.2, 0.9).is_usable());
}

#[test]
fn usable_shapes_agree_with_single_precision() {
    let vals = [-0.4f32, -0.01, 0.0, 0.004, 0.005, 0.0051, 0.01, 0.0101, 0.3, 0.31, 0.7, 1.0, 1.4];
    for &a in &vals {
        for &b in &vals {
            let rect = region(a, 0.0, b, 1.0).normalized();
            let (lo, hi) = (a.min(b).clamp(0.0, 1.0), a.max(b).clamp(0.0, 1.0));
            assert_eq!(rect.is_usable(), hi - lo > 0.01, "{a} {b}");
            let l = Linear { x0: num(a), y0: num(b), x1: num(b), y1: num(0.3) };
            let (dx, dy) = (b - a, 0.3f32 - b);
            assert_eq!(l.is_usable(), dx * dx + dy * dy > 1e-4, "{a} {b}");
            let r = Radial { cx: num(a), cy: num(b), rx: num(a), ry: num(b), invert: false };
            assert_eq!(r.is_usable(), a > 0.005 && b > 0.005, "{a} {b}");
        }
        let s = Brush { pts: vec![(num(a), num(a))], radius: num(a) };
        assert_eq!(s.is_usable(), a > 0.002);
        assert!(!Brush { pts: Vec::new(), radius: num(a) }.is_usable());
    }
}

fn object(w: usize, h: usize, mask: Vec<u8>) -> Object {
    Object {
        raw: mask.clone(),
        mask,
        w,
        h,
        area: region(0.0, 0.0, 1.0, 1.0),
        feather: 15,
        edge: 0,
    }
}

#[test]
fn objects_need_some_cover() {
    let mut m = vec![0u8; 100];
    assert!(!object(10, 10, m.clone()).is_usable());
    m[5] = 30;
    assert_eq!(object(10, 10, m.clone()).is_usable(), 30.0f32 / (100.0 * 255.0) > 0.0015);
    m[5] = 255;
    assert!(object(10, 10, m.clone()).is_usable());
    assert!(!object(3, 33, vec![255; 99]).is_usable());
    assert!(!object(0, 0, Vec::new()).is_usable());
}

#[test]
fn an_object_is_only_worked_out_anew_for_new_settings() {
    let o = object(4, 4, vec![255; 16]);
    assert_eq!(o.new_edge(15, 0), None);
    assert_eq!(o.new_edge(-3, 200), Some((0, 100)));
    assert_eq!(o.new_edge(15, -300), Some((15, -100)));
}

#[test]
fn shapes_are_counted_and_limited() {
    let mut p = SmokeParams::default();
    assert!(!p.has_shapes());
    for _ in 0..MAX_SHAPES {
        assert!(p.add_shape(Shape::Rect(region(0.9, 0.9, 0.1, 0.1))));
    }
    assert!(!p.add_shape(Shape::Rect(region(0.0, 0.0, 1.0, 1.0))));
    assert!(p.has_shapes());
    if let Some(s) = p.last_shape_mut() {
        *s = Shape::Rect(region(0.5, 0.5, 0.5, 0.5));
    }
    p.shapes.push(Shape::Linear(Linear {
        x0: num(0.0),
        y0: num(0.0),
        x1: num(1.0),
        y1: num(0.0),
    }));
    p.shapes.push(Shape::Rect(region(0.0, 0.0, 1.0, 1.0)));
    let c = p.clamped();
    assert_eq!(c.shapes.len(), MAX_SHAPES);
    assert!(matches!(c.shapes[MAX_SHAPES - 1], Shape::Linear(_)));
    match &c.shapes[0] {
        Shape::Rect(r) => assert_eq!(*r, region(0.1, 0.1, 0.9, 0.9)),
        _ => panic!("a box stays a box"),
    }
    let mut q = SmokeParams::default();
    q.undo_shape();
    assert!(q.last_shape_mut().is_none());
    q.add_shape(Shape::Rect(region(0.0, 0.0, 1.0, 1.0)));
    q.undo_shape();
    assert!(q.shapes.is_empty());
    q.add_shape(Shape::Rect(region(0.0, 0.0, 1.0, 1.0)));
    q.clear_shapes();
    assert!(q.shapes.is_empty());
}

#[test]
fn nothing_to_do_is_neutral() {
    let mut p = SmokeParams { strength: 0, ..Default::default() };
    assert!(p.is_neutral());
    p.sky_color = Some([1, 2, 3]);
    assert!(!p.is_neutral());
    p.sky_tint = 0;
    assert!(p.is_neutral());
    p.sky_clean = 1;
    assert!(!p.is_neutral() && p.touches_sky());
    assert_eq!(p.source_long(700), 700);
    p.preview_of = Some(8000);
    assert_eq!(p.source_long(700), 8000);
    assert_eq!(p.work_edge(), 2560);
    p.fast = true;
    assert_eq!(p.work_edge(), 1280);
}

#[test]
fn found_settings_are_put_in_place() {
    let a = AutoParams { strength: 50, detail: 70, sky_clean: 30, sky_range: 60 };
    let mut p = SmokeParams::default();
    assert!(!a.matches(&p));
    a.apply_to(&mut p);
    assert!(a.matches(&p));
    assert_eq!((p.strength, p.detail, p.sky_clean, p.sky_range), (50, 70, 30, 60));
    assert_eq!(
        AutoParams::default(),
        AutoParams { strength: 80, detail: 60, sky_clean: 20, sky_range: 40 }
    );
}

#[test]
fn only_some_settings_change_the_smoke_itself() {
    let a = SmokeParams::default();
    let b = SmokeParams { strength: 12, tolerance: 3, ..Default::default() };
    assert!(same_field_params(&a, &b));
    assert!(!same_field_params(&a, &SmokeParams { strength: 0, ..Default::default() }));
    assert!(!same_field_params(&a, &SmokeParams { detail: 61, ..Default::default() }));
    assert!(!same_field_params(&a, &SmokeParams { preview_of: Some(1), ..Default::default() }));
}

#[test]
fn sizes_and_radii_agree_with_single_precision() {
    for long in [1u32, 7, 160, 333, 1000, 2560, 4096, 8251, 65535] {
        let r = ((long as f32 * 0.03).round() as u64).clamp(3, 32);
        assert_eq!(streak_radius(long, 1), r);
        let r = ((long as f32 * 0.0025).round() as u64).clamp(2, 40);
        assert_eq!(window(long, 25, 10000, 2, 40), r);
        for source in [1u32, 100, 1600, 10007] {
            let (l, s) = (long as f32, source as f32);
            let k = l / s.max(1.0);
            let hi = (((s * 0.0015).clamp(1.0, 6.0) * k).round() as u64).max(1);
            let area = (((s * 0.01).clamp(4.0, 40.0) * k).round() as u64).max(2);
            assert_eq!(region_radii(long, source), (hi, area));
        }
        let (w, h) = (long, long / 2 + 1);
        let scale = if long > 1280 { 1280.0 / long as f32 } else { 1.0 };
        let want = (
            ((w as f32 * scale).round() as u64).max(1),
            ((h as f32 * scale).round() as u64).max(1),
        );
        assert_eq!(work_size(w, h, 1280), want);
    }
    assert_eq!(gate_factor(4000, 2560), (8 * 2560u64).div_ceil(4000));
    assert_eq!(gate_factor(0, 0), 1);
}

#[test]
fn growing_and_shrinking_closes_gaps() {
    let (w, h) = (9usize, 5usize);
    let mut on = vec![false; w * h];
    on[2 * w + 2] = true;
    on[2 * w + 4] = true;
    let big = grow(&on, w, h, 1);
    assert_eq!(big.iter().filter(|&&b| b).count(), 3 * 5);
    let back = shrink(&big, w, h, 1);
    let set: Vec<usize> = (0..w * h).filter(|&i| back[i]).collect();
    assert_eq!(set, vec![2 * w + 2, 2 * w + 3, 2 * w + 4]);
}

#[test]
fn specks_and_coreless_parts_are_dropped() {
    let (w, h) = (20usize, 10usize);
    let inside = vec![true; w * h];
    let mut fg = vec![false; w * h];
    let mut core = vec![false; w * h];
    for x in 1..7 {
        fg[w + x] = true;
    }
    core[w + 3] = true;
    for x in 10..16 {
        fg[5 * w + x] = true;
    }
    fg[8 * w + 1] = true;
    core[8 * w + 1] = true;
    let keep = solid_parts(&inside, &fg, &core, w, h).unwrap();
    let set: Vec<usize> = (0..w * h).filter(|&i| keep[i]).collect();
    assert_eq!(set, (1..7).map(|x| w + x).collect::<Vec<_>>());
    assert!(solid_parts(&inside, &fg, &vec![false; w * h], w, h).is_none());
    let mut few = vec![false; w * h];
    few[..15].fill(true);
    assert!(solid_parts(&few, &fg, &core, w, h).is_none());
}

#[test]
fn a_whole_shape_has_no_holes() {
    let (w, h) = (12u32, 12u32);
    let mut keep = vec![false; 144];
    for y in 2..10 {
        for x in 2..10 {
            keep[y * 12 + x] = !(4..8).contains(&x) || !(4..8).contains(&y);
        }
    }
    let inside = vec![true; 144];
    let out = whole_shape(&keep, &inside, w, h);
    for y in 2..10 {
        for x in 2..10 {
            assert!(out[y * 12 + x], "({x},{y})");
        }
    }
    assert!(!out[0] && !out[11 * 12 + 11]);
    assert!(whole_shape(&Vec::new(), &Vec::new(), 0, 5).is_empty());
}

#[test]
fn the_search_window_agrees_with_single_precision() {
    for (x0, x1) in [(0.0f32, 1.0f32), (0.1, 0.3), (0.63, 0.2), (0.45, 0.47), (0.9, 1.2)] {
        for n in [8u32, 33, 100, 1601, 6000] {
            let got = search_window(region(x0, 0.0, x1, 1.0), n, 500);
            let (a, b) = (x0.min(x1).clamp(0.0, 1.0), x0.max(x1).clamp(0.0, 1.0));
            let s = b - a;
            let (p0, p1) = ((a - s * 0.18).max(0.0), (b + s * 0.18).min(1.0));
            let lo = ((p0 * n as f32).floor() as u32).min(n - 1);
            let hi = ((p1 * n as f32).ceil() as u32).clamp(lo + 1, n);
            match got {
                Some((_, v)) => {
                    assert_eq!((v.x0, v.x1), (lo, hi), "{x0} {x1} {n}");
                    assert!(s > 0.01 && hi - lo >= 8);
                }
                None => assert!(s <= 0.01 || hi - lo < 8, "{x0} {x1} {n}"),
            }
        }
    }
    assert!(search_window(region(0.0, 0.0, 1.0, 1.0), 7, 100).is_none());
}

#[test]
fn asked_cells_agree_with_single_precision() {
    let (iw, ih) = (640u32, 480u32);
    let sel = region(0.21, 0.33, 0.58, 0.71);
    let (b, v) = search_window(sel, iw, ih).unwrap();
    let (w, h) = work_grid(v.x1 - v.x0, v.y1 - v.y0);
    let (w, h) = (w as u32, h as u32);
    let got = asked_cells(&v, &b, iw, ih, w, h);
    let area = [
        v.x0 as f32 / iw as f32,
        v.y0 as f32 / ih as f32,
        v.x1 as f32 / iw as f32,
        v.y1 as f32 / ih as f32,
    ];
    for y in 0..h {
        for x in 0..w {
            let u = area[0] + (x as f32 + 0.5) / w as f32 * (area[2] - area[0]);
            let t = area[1] + (y as f32 + 0.5) / h as f32 * (area[3] - area[1]);
            let want = u >= 0.21 && u <= 0.58 && t >= 0.33 && t <= 0.71;
            assert_eq!(got[(y * w + x) as usize], want, "({x},{y})");
        }
    }
}

#[test]
fn work_grids_and_reaches_agree_with_single_precision() {
    for (cw, ch) in [(8u32, 8u32), (300, 40), (384, 384), (1000, 9), (5000, 3000)] {
        let scale = (384.0 / cw.max(ch) as f32).min(1.0);
        let want = (
            ((cw as f32 * scale).round() as u64).max(8),
            ((ch as f32 * scale).round() as u64).max(8),
        );
        assert_eq!(work_grid(cw, ch), want);
    }
    for long in [8u32, 100, 384, 1600] {
        for e in [-100i32, -37, -1, 1, 50, 100] {
            let want =
                ((e.unsigned_abs() as f32 / 100.0 * 0.02 * long as f32).round() as u64).max(1);
            assert_eq!(edge_reach(e, long), want);
        }
        for f in [0i32, 1, 15, 63, 100] {
            let want = (f as f32 / 100.0 * 0.05 * long as f32).round() as u64;
            assert_eq!(feather_reach(f, long), want);
        }
        let want = ((0.012 * long as f32).round() as u64).max(1);
        assert_eq!(reach_of(long, 3, 12, 1000, 1), want);
    }
}
