use image::{Rgb, RgbImage, Rgba, RgbaImage};
use photo2video::align::{align_offset, PatchFit, Shift};
use photo2video::blocks::luma_thumb;
use photo2video::caption::{
    baseline, block_of, draw_text, line_height, pane_of, place_line, text_px, window_of, Block, Glyph,
    Ink, TextStyle,
};
use photo2video::edit::{ImageItem, TextItem};
use photo2video::smoke::SmokeParams;
use photo2video::motion::{frame_diff, interp_stride, is_far, is_fresh};
use photo2video::overlay::{draw_image, Sticker};
use photo2video::raster::Raster;
use photo2video::signed::{from_bits, Signed};
use photo2video::single::Single;
use photo2video::tilt::{refine_rotation, turn_of};
use photo2video::turned::Angle;

fn num(v: f32) -> Signed {
    from_bits(v.to_bits()).unwrap()
}

fn float(v: Signed) -> f32 {
    let size = v.size.m as f64 * (v.size.e as f64).exp2();
    (if v.neg { -size } else { size }) as f32
}

fn raster(img: &RgbImage) -> Raster {
    Raster { w: img.width() as usize, h: img.height() as usize, d: img.as_raw().clone() }
}

fn angle(deg: f32) -> (f32, f32, Angle) {
    let (sin, cos) = deg.to_radians().sin_cos();
    (sin, cos, Angle { sin: num(sin), cos: num(cos) })
}

const DIRS: [(f32, f32); 8] = [
    (-1.0, 0.0),
    (1.0, 0.0),
    (0.0, -1.0),
    (0.0, 1.0),
    (-0.7, -0.7),
    (0.7, -0.7),
    (-0.7, 0.7),
    (0.7, 0.7),
];

fn lay(img: &mut RgbImage, it: &ImageItem, src: &RgbaImage, sin: f32, cos: f32) {
    let (iw, ih) = (img.width() as f32, img.height() as f32);
    let (sw, sh) = (src.width() as f32, src.height() as f32);
    if sw < 1.0 || sh < 1.0 {
        return;
    }

    let dw = (float(it.scale) * iw).max(1.0);
    let dh = dw * sh / sw;
    let (cx, cy) = (float(it.x) * iw, float(it.y) * ih);

    let (hx, hy) = (dw / 2.0, dh / 2.0);
    let corners = [(-hx, -hy), (hx, -hy), (hx, hy), (-hx, hy)];
    let (mut lx, mut ly, mut rx, mut ry) = (f32::MAX, f32::MAX, f32::MIN, f32::MIN);
    for (x, y) in corners {
        let (px, py) = (cx + x * cos - y * sin, cy + x * sin + y * cos);
        lx = lx.min(px);
        rx = rx.max(px);
        ly = ly.min(py);
        ry = ry.max(py);
    }
    let x0 = (lx.floor().max(0.0) as u32).min(img.width().saturating_sub(1));
    let y0 = (ly.floor().max(0.0) as u32).min(img.height().saturating_sub(1));
    let x1 = (rx.ceil().max(0.0) as u32).min(img.width().saturating_sub(1));
    let y1 = (ry.ceil().max(0.0) as u32).min(img.height().saturating_sub(1));
    let alpha = float(it.opacity).clamp(0.0, 1.0);
    for y in y0..=y1 {
        for x in x0..=x1 {
            let (dx, dy) = (x as f32 + 0.5 - cx, y as f32 + 0.5 - cy);
            let (ux, uy) = (dx * cos + dy * sin, -dx * sin + dy * cos);
            if ux < -hx || ux > hx || uy < -hy || uy > hy {
                continue;
            }

            let fx = (ux + hx) / dw * sw - 0.5;
            let fy = (uy + hy) / dh * sh - 0.5;
            let Some(s) = mixed_rgba(src, fx, fy) else {
                continue;
            };
            let a = s[3] * alpha;
            if a <= 0.002 {
                continue;
            }
            let px = img.get_pixel_mut(x, y);
            for c in 0..3 {
                px[c] = (px[c] as f32 + (s[c] - px[c] as f32) * a)
                    .clamp(0.0, 255.0)
                    .round() as u8;
            }
        }
    }
}

fn mixed_rgba(src: &RgbaImage, fx: f32, fy: f32) -> Option<[f32; 4]> {
    let (w, h) = (src.width() as i32, src.height() as i32);
    if w < 1 || h < 1 {
        return None;
    }
    let (x0, y0) = (fx.floor() as i32, fy.floor() as i32);
    let (tx, ty) = (fx - x0 as f32, fy - y0 as f32);
    let at = |x: i32, y: i32| {
        let p = src.get_pixel(
            x.clamp(0, w - 1) as u32,
            y.clamp(0, h - 1) as u32,
        );
        [
            p[0] as f32,
            p[1] as f32,
            p[2] as f32,
            p[3] as f32 / 255.0,
        ]
    };
    let (c00, c10, c01, c11) = (
        at(x0, y0),
        at(x0 + 1, y0),
        at(x0, y0 + 1),
        at(x0 + 1, y0 + 1),
    );
    let mut out = [0f32; 4];
    for c in 0..4 {
        let top = c00[c] + (c10[c] - c00[c]) * tx;
        let bot = c01[c] + (c11[c] - c01[c]) * tx;
        out[c] = top + (bot - top) * ty;
    }
    Some(out)
}

fn bbox(pts: impl Iterator<Item = [f32; 2]>, iw: f32, ih: f32) -> Option<(i32, i32, i32, i32)> {
    let (mut x0, mut y0, mut x1, mut y1) = (f32::MAX, f32::MAX, f32::MIN, f32::MIN);
    for p in pts {
        x0 = x0.min(p[0]);
        y0 = y0.min(p[1]);
        x1 = x1.max(p[0]);
        y1 = y1.max(p[1]);
    }
    let x0 = x0.floor().max(0.0) as i32;
    let y0 = y0.floor().max(0.0) as i32;
    let x1 = (x1.ceil() + 1.0).clamp(0.0, iw) as i32;
    let y1 = (y1.ceil() + 1.0).clamp(0.0, ih) as i32;
    (x1 > x0 && y1 > y0).then_some((x0, y0, x1, y1))
}

fn blend(dst: &mut [f32; 3], color: [f32; 3], a: f32) {
    let a = a.clamp(0.0, 1.0);
    for c in 0..3 {
        dst[c] += (color[c] - dst[c]) * a;
    }
}

fn letter(
    img: &mut RgbImage,
    b: &Block,
    sin: f32,
    cos: f32,
    ink: &Ink,
    style: &TextStyle,
) -> Option<[i64; 8]> {
    let (iw, ih) = (img.width() as f32, img.height() as f32);
    let (bw, bh, ow, box_pad) = (float(b.bw), float(b.bh), float(b.ow), float(b.pad));
    let center = [float(b.cx), float(b.cy)];
    let block_c = [bw * 0.5, bh * 0.5];
    let to_img = |p: [f32; 2]| {
        let (dx, dy) = (p[0] - block_c[0], p[1] - block_c[1]);
        [
            center[0] + dx * cos - dy * sin,
            center[1] + dx * sin + dy * cos,
        ]
    };
    let to_block = |p: [f32; 2]| {
        let (dx, dy) = (p[0] - center[0], p[1] - center[1]);
        [
            block_c[0] + dx * cos + dy * sin,
            block_c[1] - dx * sin + dy * cos,
        ]
    };

    let ext = box_pad.max(ow) + 1.0;
    let corners = [
        [-ext, -ext],
        [bw + ext, -ext],
        [bw + ext, bh + ext],
        [-ext, bh + ext],
    ];
    let Some((dx0, dy0, dx1, dy1)) = bbox(corners.iter().map(|&c| to_img(c)), iw, ih) else {
        return None;
    };

    let (mut mx0, mut my0, mut mx1, mut my1) = (f32::MAX, f32::MAX, f32::MIN, f32::MIN);
    for c in [
        [dx0 as f32, dy0 as f32],
        [dx1 as f32, dy0 as f32],
        [dx1 as f32, dy1 as f32],
        [dx0 as f32, dy1 as f32],
    ] {
        let p = to_block(c);
        mx0 = mx0.min(p[0]);
        my0 = my0.min(p[1]);
        mx1 = mx1.max(p[0]);
        my1 = my1.max(p[1]);
    }
    let pad = ow.ceil() + 2.0;
    let mx0 = (mx0 - 1.0).max(-pad).floor() as i32;
    let my0 = (my0 - 1.0).max(-pad).floor() as i32;
    let mx1 = (mx1 + 1.0).min(bw + pad).ceil() as i32;
    let my1 = (my1 + 1.0).min(bh + pad).ceil() as i32;
    let (mw, mh) = ((mx1 - mx0).max(0) as usize, (my1 - my0).max(0) as usize);
    let has_glyphs = mw > 0 && mh > 0;
    let mask = &ink.d;
    if mask.len() != mw * mh {
        return Some([dx0, dy0, dx1, dy1, mx0, my0, mx1, my1].map(|v| v as i64));
    }

    let sample = |x: f32, y: f32| -> f32 {
        if !has_glyphs {
            return 0.0;
        }
        let (fx, fy) = (x - mx0 as f32 - 0.5, y - my0 as f32 - 0.5);
        let (bx, by) = (fx.floor(), fy.floor());
        let (tx, ty) = (fx - bx, fy - by);
        let (bx, by) = (bx as i32, by as i32);
        let get = |x: i32, y: i32| -> f32 {
            if x < 0 || y < 0 || x >= mw as i32 || y >= mh as i32 {
                0.0
            } else {
                mask[y as usize * mw + x as usize] as f32 / 255.0
            }
        };
        let a = get(bx, by) + (get(bx + 1, by) - get(bx, by)) * tx;
        let b = get(bx, by + 1) + (get(bx + 1, by + 1) - get(bx, by + 1)) * tx;
        a + (b - a) * ty
    };

    let fill = [style.fill.0, style.fill.1, style.fill.2, style.fill.3];
    let edge = [style.edge.0, style.edge.1, style.edge.2, style.edge.3];

    let outlined = ow > 0.05 && edge[3] > 0;

    let slack = ow + 1.5;

    for y in dy0..dy1 {
        for x in dx0..dx1 {
            let b = to_block([x as f32 + 0.5, y as f32 + 0.5]);
            let src = img.get_pixel(x as u32, y as u32);
            let mut dst = [src[0] as f32, src[1] as f32, src[2] as f32];
            let mut touched = false;

            if box_pad > 0.0 {
                let inside = (b[0] + box_pad)
                    .min(bw + box_pad - b[0])
                    .min(b[1] + box_pad)
                    .min(bh + box_pad - b[1]);
                let cov = (inside + 0.5).clamp(0.0, 1.0);
                if cov > 0.0 {
                    blend(&mut dst, [0.0, 0.0, 0.0], cov * 0.4);
                    touched = true;
                }
            }

            if b[0] > -slack && b[1] > -slack && b[0] < bw + slack && b[1] < bh + slack {
                if outlined {
                    let mut a = 0.0f32;
                    for (ox, oy) in DIRS {
                        a = a.max(sample(b[0] - ox * ow, b[1] - oy * ow));
                        if a >= 1.0 {
                            break;
                        }
                    }
                    if a > 0.0 {
                        blend(
                            &mut dst,
                            [edge[0] as f32, edge[1] as f32, edge[2] as f32],
                            a * edge[3] as f32 / 255.0,
                        );
                        touched = true;
                    }
                }
                let a = sample(b[0], b[1]);
                if a > 0.0 && fill[3] > 0 {
                    blend(
                        &mut dst,
                        [fill[0] as f32, fill[1] as f32, fill[2] as f32],
                        a * fill[3] as f32 / 255.0,
                    );
                    touched = true;
                }
            }

            if touched {
                let p = img.get_pixel_mut(x as u32, y as u32);
                for c in 0..3 {
                    p[c] = dst[c].clamp(0.0, 255.0) as u8;
                }
            }
        }
    }
    Some([dx0, dy0, dx1, dy1, mx0, my0, mx1, my1].map(|v| v as i64))
}

fn style() -> TextStyle {
    TextStyle { fill: (250, 240, 40, 255), edge: (10, 0, 60, 200), outline_w: 30, boxed: true }
}

fn ground(w: u32, h: u32) -> RgbImage {
    RgbImage::from_fn(w, h, |x, y| {
        Rgb([(x * 7 % 256) as u8, (y * 11 % 256) as u8, ((x + y) * 3 % 256) as u8])
    })
}

fn sticker() -> RgbaImage {
    RgbaImage::from_fn(9, 6, |x, y| {
        Rgba([(x * 28) as u8, (y * 40) as u8, 200, if x == y { 0 } else { 120 + (x * 15) as u8 }])
    })
}

fn laid_over(img: &RgbImage, it: &ImageItem, src: &RgbaImage, a: &Angle) -> Vec<u8> {
    let s = Sticker { d: src.as_raw().clone(), w: src.width() as usize, h: src.height() as usize };
    let mut r = raster(img);
    draw_image(&mut r, it, &s, a);
    r.d
}

fn item(x: f32, y: f32, scale: f32, opacity: f32) -> ImageItem {
    ImageItem {
        path: String::from("a.png"),
        x: num(x),
        y: num(y),
        scale: num(scale),
        rot: num(0.0),
        opacity: num(opacity),
    }
}

#[test]
fn overlays_are_laid_as_in_floats() {
    let (img, src) = (ground(60, 40), sticker());
    for (x, y, scale, opacity) in
        [(0.5, 0.5, 0.4, 1.0), (0.1, 0.9, 0.7, 0.6), (0.95, 0.1, 0.0, 0.9), (2.0, 2.0, 0.2, 1.0)]
    {
        let it = item(x, y, scale, opacity);
        for deg in [0.0, 30.0, -115.0, 180.0] {
            let (sin, cos, a) = angle(deg);
            let mut want = img.clone();
            lay(&mut want, &it, &src, sin, cos);
            assert_eq!(&laid_over(&img, &it, &src, &a), want.as_raw());
        }
    }
}

#[test]
fn an_overlay_lands_where_it_was_placed_and_keeps_its_size() {
    let logo = RgbaImage::from_pixel(20, 10, Rgba([255, 0, 0, 255]));
    let img = RgbImage::new(800, 400);
    let d = laid_over(&img, &item(0.25, 0.5, 0.25, 1.0), &logo, &angle(0.0).2);
    let at = |x: usize, y: usize| [d[(y * 800 + x) * 3], d[(y * 800 + x) * 3 + 1]];
    assert_eq!(at(200, 200), [255, 0]);
    assert_eq!(at(200, 145), [0, 0]);
    assert_eq!(at(200, 255), [0, 0]);
    assert_eq!(at(95, 200), [0, 0]);
    assert_eq!(at(305, 200), [0, 0]);
    assert_eq!(at(110, 200), [255, 0]);
    assert_eq!(at(290, 200), [255, 0]);
}

#[test]
fn a_transparent_overlay_only_paints_where_it_is_opaque() {
    let logo = RgbaImage::from_fn(8, 8, |x, _| Rgba([0, 255, 0, if x < 4 { 255 } else { 0 }]));
    let img = RgbImage::from_pixel(200, 200, Rgb([30, 30, 30]));
    let d = laid_over(&img, &item(0.5, 0.5, 0.5, 1.0), &logo, &angle(0.0).2);
    let at = |x: usize, y: usize| d[(y * 200 + x) * 3..(y * 200 + x) * 3 + 3].to_vec();
    assert_eq!(at(75, 100), [0, 255, 0]);
    assert_eq!(at(125, 100), [30, 30, 30]);
}

#[test]
fn overlay_opacity_blends_towards_the_photo() {
    let logo = RgbaImage::from_pixel(4, 4, Rgba([200, 200, 200, 255]));
    let img = RgbImage::new(100, 100);
    let it = ImageItem { opacity: num(0.5), scale: num(0.5), ..ImageItem::default() };
    let d = laid_over(&img, &it, &logo, &angle(0.0).2);
    let mid = &d[(50 * 100 + 50) * 3..(50 * 100 + 50) * 3 + 3];
    assert!(mid.iter().all(|&v| (v as i32 - 100).abs() <= 2));
}

#[test]
fn a_rotated_overlay_turns_around_its_own_centre() {
    let logo = RgbaImage::from_pixel(40, 10, Rgba([0, 0, 255, 255]));
    let img = RgbImage::new(400, 400);
    let d = laid_over(&img, &item(0.5, 0.5, 0.5, 1.0), &logo, &angle(90.0).2);
    let at = |x: usize, y: usize| d[(y * 400 + x) * 3 + 2];
    assert_eq!(at(200, 120), 255);
    assert_eq!(at(200, 280), 255);
    assert_eq!(at(120, 200), 0);
    assert_eq!(at(280, 200), 0);
}

#[test]
fn an_empty_overlay_changes_nothing() {
    let img = ground(8, 8);
    let d = laid_over(&img, &item(0.5, 0.5, 1.0, 1.0), &RgbaImage::new(0, 5), &angle(0.0).2);
    assert_eq!(&d, img.as_raw());
}

#[test]
fn an_invisible_overlay_changes_nothing() {
    let img = ground(30, 20);
    let d = laid_over(&img, &item(0.5, 0.5, 0.8, 0.0), &sticker(), &angle(15.0).2);
    assert_eq!(&d, img.as_raw());
}

#[test]
fn glyphs_follow_each_other_by_kern_and_advance() {
    let g = |kern: f32, advance: f32| Glyph { kern: num(kern), advance: num(advance) };
    let (x, width) = place_line(&vec![g(9.0, 10.5), g(-1.25, 8.0), g(0.5, 4.0)]);
    assert_eq!(x, vec![num(0.0), num(9.25), num(17.75)]);
    assert_eq!(width, num(21.75));
    assert_eq!(place_line(&Vec::new()).1, num(0.0));
}

#[test]
fn lines_lie_below_each_other() {
    let h = line_height(num(30.5), num(-8.25), num(2.0));
    assert_eq!(h, num(40.75));
    assert_eq!(baseline(h, 2, num(30.5)), num(112.0));
    assert_eq!(text_px(54, 2160), num(108.0));
    assert_eq!(text_px(-3, 2160), num(2.0));
}

fn text(x: f32, y: f32, size: i32) -> TextItem {
    TextItem { text: String::from("abc"), x: num(x), y: num(y), size, rot: num(0.0) }
}

#[test]
fn a_text_without_extent_is_no_block() {
    let t = text(0.5, 0.5, 40);
    assert!(block_of(&t, &style(), &vec![num(0.0)], num(20.0), 80, 60).is_none());
    assert!(block_of(&t, &style(), &vec![num(9.0)], num(0.0), 80, 60).is_none());
    let b = block_of(&t, &style(), &vec![num(9.0), num(12.0)], num(20.0), 80, 540).unwrap();
    assert_eq!((b.bw, b.bh), (num(12.0), num(40.0)));
    assert_eq!((b.ow, b.pad), (num(15.0), num(5.0)));
    assert_eq!((b.cx, b.cy), (num(40.0), num(270.0)));
}

#[test]
fn text_off_the_photo_touches_no_pixel() {
    let b = block_of(&text(5.0, 5.0, 40), &style(), &vec![num(9.0)], num(8.0), 80, 60).unwrap();
    assert!(pane_of(&b, &angle(0.0).2, 80, 60).is_none());
}

#[test]
fn letters_are_painted_as_in_floats() {
    let img = ground(70, 50);
    for (x, y, deg) in [(0.5f32, 0.5f32, 0.0f32), (0.3, 0.6, 25.0), (0.95, 0.05, -70.0)] {
        for (outline_w, boxed, fill, edge) in
            [(60, true, 255, 200), (0, false, 180, 255), (40, false, 255, 0), (25, true, 0, 90)]
        {
            let mut s = style();
            (s.outline_w, s.boxed, s.fill.3, s.edge.3) = (outline_w, boxed, fill, edge);
            let t = text(x, y, 300);
            let b = block_of(&t, &s, &vec![num(26.3), num(19.0)], num(11.4), 70, 50).unwrap();
            let (sin, cos, a) = angle(deg);
            let pane = pane_of(&b, &a, 70, 50).unwrap();
            let win = window_of(&b, &a, &pane);
            let mut ink = Ink::new(&win);
            for j in 0..(b.bh.size.round() as i32) {
                for i in 0..26 {
                    if (i / 4 + j / 3) % 3 == 0 {
                        ink.put(i, j, num(0.3 + (i % 5) as f32 * 0.2));
                    }
                }
            }
            let mut want = img.clone();
            let at = letter(&mut want, &b, sin, cos, &ink, &s).unwrap();
            assert_eq!(
                [pane.x0, pane.y0, pane.x1, pane.y1, win.x0, win.y0, win.x1, win.y1],
                at
            );
            let mut r = raster(&img);
            draw_text(&mut r, &b, &a, &pane, &ink, &s);
            assert_eq!(&r.d, want.as_raw());
        }
    }
}

#[test]
fn ink_keeps_the_most_that_covers_a_cell() {
    let mut k = Ink { x0: -2, y0: 3, w: 2, h: 1, d: vec![0, 0] };
    k.put(-2, 3, num(0.5));
    k.put(-2, 3, num(0.25));
    k.put(-1, 3, num(7.0));
    k.put(0, 3, num(1.0));
    k.put(-1, 2, num(1.0));
    assert_eq!(k.d, vec![128, 255]);
}

fn frame(w: u32, h: u32, f: impl Fn(u32, u32) -> u8) -> Raster {
    raster(&RgbImage::from_fn(w, h, |x, y| {
        let v = f(x, y);
        Rgb([v, v, v])
    }))
}

#[test]
fn frame_diff_ignores_thin_streaks_but_catches_a_pan() {
    let base = |x: u32, y: u32| ((x / 8 + y / 8) % 7 * 30 + 20) as u8;
    let half = num(0.5);
    let a = luma_thumb(&frame(256, 144, base));
    let streak = luma_thumb(&frame(256, 144, |x, y| if y == 70 { 255 } else { base(x, y) }));
    assert_eq!(frame_diff(&a, &streak, &a, half).unwrap().m, 0);
    assert!(!is_far(&a, &streak, &a, half));
    let panned = luma_thumb(&frame(256, 144, |x, y| base(x + 40, y)));
    assert!(is_far(&a, &panned, &a, half));
    let other = luma_thumb(&frame(256, 192, base));
    assert!(frame_diff(&a, &other, &a, half).is_none());
    assert!(is_far(&a, &other, &a, half));
    assert_eq!(interp_stride(num(59.94)), 3);
    assert_eq!(interp_stride(num(29.97)), 2);
    assert_eq!(interp_stride(num(48.0)), 3);
}

#[test]
fn frames_are_fresh_by_settings_or_by_what_they_show() {
    let base = |x: u32, y: u32| ((x / 8 + y / 8) % 7 * 30 + 20) as u8;
    let half = num(0.5);
    let a = luma_thumb(&frame(256, 144, base));
    let panned = luma_thumb(&frame(256, 144, |x, y| base(x + 40, y)));
    let p = SmokeParams::default();
    let q = SmokeParams { detail: 61, ..SmokeParams::default() };
    assert!(!is_fresh(&p, &p, &p, &a, &a, &a, half));
    assert!(is_fresh(&p, &p, &p, &a, &panned, &a, half));
    assert!(is_fresh(&q, &p, &p, &a, &a, &a, half));
    assert!(is_fresh(&p, &p, &q, &a, &a, &a, half));
    let louder = SmokeParams { strength: 10, ..SmokeParams::default() };
    assert!(!is_fresh(&p, &louder, &p, &a, &a, &a, half));
}

#[test]
fn the_distance_of_frames_is_that_of_floats() {
    let a = vec![0u32, 1000, 30000, 65280];
    let c = vec![500u32, 2500, 20000, 60000];
    let b = vec![900u32, 9000, 100, 3];
    let v = |x: u32| x as f32 / 65280.0;
    for t in [0.0f32, 0.3333, 0.5, 1.0] {
        let (mut diff, mut level) = (0.0f64, 0.0f64);
        for i in 0..4 {
            let mid = v(a[i]) + (v(b[i]) - v(a[i])) * t;
            diff += (v(c[i]) - mid).abs() as f64;
            level += v(c[i]) as f64;
        }
        let want = diff / 4.0 / (level / 4.0 + 0.02);
        let got = frame_diff(&a, &c, &b, num(t)).unwrap();
        assert_eq!(got.m as f64 * (got.e as f64).exp2(), want);
    }
}

fn cost(v: f32) -> Single {
    num(v).size
}

fn fit(dx: i64, dy: i64, c: [f32; 5]) -> PatchFit {
    let n = |v: f32| if v < 0.0 { None } else { Some(cost(v)) };
    PatchFit {
        dx,
        dy,
        best: cost(c[0]),
        left: n(c[1]),
        right: n(c[2]),
        up: n(c[3]),
        down: n(c[4]),
    }
}

fn nudge(a: f32, b: f32, c: f32) -> f32 {
    if a < 0.0 || c < 0.0 {
        return 0.0;
    }
    let d = a - 2.0 * b + c;
    if d.abs() < 1e-6 {
        0.0
    } else {
        ((a - c) / (2.0 * d)).clamp(-1.0, 1.0)
    }
}

#[test]
fn a_turn_is_read_off_as_in_floats() {
    let (w, h) = (1600usize, 1000usize);
    let (left, right) = ((200i64, 430i64), (1400i64, 520i64));
    for (l, r) in [
        ((3, -4, [2.0, 3.0, 2.5, 4.0, 3.0]), (5, 9, [1.0, 1.5, 1.25, 9.0, 1.0])),
        ((-7, 2, [2.0, 2.0, 2.0, -1.0, 3.0]), (-7, 2, [2.0, 2.5, 3.0, 2.0, 2.0])),
    ] {
        let m = |(dx, dy, c): (i64, i64, [f32; 5])| {
            (dx as f32 + nudge(c[1], c[0], c[2]), dy as f32 + nudge(c[3], c[0], c[4]))
        };
        let (ml, mr) = (m(l), m(r));
        let deg = ((mr.1 - ml.1) / (right.0 as f32 - left.0 as f32)).to_degrees();
        let deg = if deg.abs() < 0.02 { 0.0 } else { deg };
        let t = deg.to_radians();
        let (cx, cy) = (w as f32 / 2.0, h as f32 / 2.0);
        let dx =
            ((ml.0 + (left.1 as f32 - cy) * t) + (mr.0 + (right.1 as f32 - cy) * t)) / 2.0;
        let dy =
            ((ml.1 - (left.0 as f32 - cx) * t) + (mr.1 - (right.0 as f32 - cx) * t)) / 2.0;
        let got =
            turn_of(w, h, left, right, &fit(l.0, l.1, l.2), &fit(r.0, r.1, r.2)).unwrap();
        assert_eq!(float(got.deg), deg);
        assert_eq!((float(got.dx), float(got.dy)), (dx / w as f32, dy / h as f32));
    }
    let steep = fit(0, 100, [1.0, 2.0, 2.0, 2.0, 2.0]);
    assert!(turn_of(w, h, left, right, &fit(0, 0, [1.0, 2.0, 2.0, 2.0, 2.0]), &steep).is_none());
}

#[test]
fn no_turn_is_read_off_plain_pictures() {
    let flat = frame(300, 200, |_, _| 90);
    assert!(align_offset(&flat, &flat).is_none());
    let s = Shift { dx: 0, dy: 0, w: 300, h: 200, fine: true };
    assert!(refine_rotation(&flat, &flat, &s).is_none());
}
