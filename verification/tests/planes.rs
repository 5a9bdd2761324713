use photo2video::blobs::{fill_holes, keep_cored, label_blobs};
use photo2video::blocks::{block_index, block_minima, luma_thumb, THUMB_COLS, THUMB_WHITE};
use photo2video::blur::RowBlur;
use photo2video::morph::{extreme_row, max_filter, min_filter, open_filter, pool, transpose, Plane};
use photo2video::raster::Raster;
use photo2video::resample::{copy, resize, shrink};
use photo2video::sky::{reach_down, skyline};

fn noise(n: usize, seed: u32) -> Vec<u32> {
    let mut s = seed;
    (0..n)
        .map(|_| {
            s = s.wrapping_mul(1664525).wrapping_add(1013904223);
            s >> 8
        })
        .collect()
}

fn plane(w: usize, h: usize, seed: u32) -> Plane {
    Plane { w, h, d: noise(w * h, seed).into_iter().map(|v| (v % 41) as i64 - 20).collect() }
}

fn brute(p: &Plane, r: usize, max: bool) -> Vec<i64> {
    let mut out = Vec::new();
    for y in 0..p.h {
        for x in 0..p.w {
            let mut v = p.d[y * p.w + x];
            for yy in y.saturating_sub(r)..(y + r + 1).min(p.h) {
                for xx in x.saturating_sub(r)..(x + r + 1).min(p.w) {
                    let u = p.d[yy * p.w + xx];
                    v = if max { v.max(u) } else { v.min(u) };
                }
            }
            out.push(v);
        }
    }
    out
}

/// An integer that orders as the float does.
fn key(v: f32) -> i64 {
    let b = v.to_bits() as i32;
    (b ^ (((b >> 31) as u32) >> 1) as i32) as i64
}

fn unkey(k: i64) -> f32 {
    let k = k as i32;
    f32::from_bits((k ^ (((k >> 31) as u32) >> 1) as i32) as u32)
}

#[test]
fn sliding_extremes_match_brute_force() {
    let w = 23;
    let h = 5;
    let d: Vec<f32> = (0..w * h).map(|i| ((i * 7 % 13) as f32 - 6.0) / 6.0).collect();
    let p = Plane { w, h, d: d.iter().map(|&v| key(v)).collect() };
    for r in [1usize, 3, 8, 30] {
        let lo = min_filter(&p, r);
        let hi = max_filter(&p, r);
        for y in 0..h {
            for x in 0..w {
                let (mut bmin, mut bmax) = (f32::INFINITY, f32::NEG_INFINITY);
                for yy in y.saturating_sub(r)..(y + r + 1).min(h) {
                    for xx in x.saturating_sub(r)..(x + r + 1).min(w) {
                        bmin = bmin.min(d[yy * w + xx]);
                        bmax = bmax.max(d[yy * w + xx]);
                    }
                }
                assert_eq!(unkey(lo.d[y * w + x]), bmin, "min r={r} at ({x},{y})");
                assert_eq!(unkey(hi.d[y * w + x]), bmax, "max r={r} at ({x},{y})");
            }
        }
    }
}

#[test]
fn opening_takes_peaks_away_and_keeps_wide_ground() {
    let p = plane(17, 9, 5);
    for r in [0usize, 1, 2, 5] {
        let o = open_filter(&p, r);
        let lo = Plane { w: 17, h: 9, d: brute(&p, r, false) };
        assert_eq!(o.d, brute(&lo, r, true), "r={r}");
        assert!(o.d.iter().zip(&p.d).all(|(a, b)| a <= b));
    }
    assert_eq!(open_filter(&p, 0).d, p.d);
}

#[test]
fn rows_are_filtered_on_their_own() {
    let row = vec![3, -1, 4, 1, -5, 9, 2, 6];
    assert_eq!(extreme_row(&row, 1, true), vec![3, 4, 4, 4, 9, 9, 9, 6]);
    assert_eq!(extreme_row(&row, 2, false), vec![-1, -1, -5, -5, -5, -5, -5, 2]);
    assert_eq!(extreme_row(&row, 0, true), row);
    assert_eq!(extreme_row(&Vec::new(), 3, true), Vec::<i64>::new());
}

#[test]
fn turning_a_plane_over_twice_gives_it_back() {
    let p = plane(6, 4, 2);
    let t = transpose(&p);
    assert_eq!((t.w, t.h), (4, 6));
    assert_eq!(t.d[2 * 4 + 3], p.d[3 * 6 + 2]);
    assert_eq!(transpose(&t).d, p.d);
}

#[test]
fn pooling_takes_the_extreme_of_each_block() {
    let p = Plane { w: 5, h: 3, d: (0..15).collect() };
    let hi = pool(&p, 2, true);
    assert_eq!((hi.w, hi.h, hi.d), (3, 2, vec![6, 8, 9, 11, 13, 14]));
    assert_eq!(pool(&p, 2, false).d, vec![0, 2, 4, 10, 12, 14]);
}

#[test]
fn what_lies_under_a_wall_is_not_reached() {
    let p = Plane { w: 3, h: 4, d: vec![9, 9, 9, 1, 1, 1, 9, 9, 9, 9, 0, 9] };
    assert_eq!(reach_down(&p, 1).d, vec![9, 9, 9, 1, 1, 1, 1, 1, 1, 1, 0, 1]);
    let gap = Plane { w: 4, h: 3, d: vec![9, 9, 9, 9, 1, 1, 1, 7, 9, 9, 9, 9] };
    assert_eq!(reach_down(&gap, 1).d, vec![9, 9, 9, 9, 1, 1, 1, 7, 1, 1, 7, 7]);
    assert_eq!(reach_down(&gap, 3).d[8..], [7, 7, 7, 7]);
}

#[test]
fn the_skyline_is_the_lowest_cell_above_the_floor() {
    let p = Plane { w: 3, h: 3, d: vec![5, 0, 5, 5, 0, 0, 0, 0, 5] };
    assert_eq!(skyline(&p, 0), vec![2, 0, 3]);
    assert_eq!(skyline(&p, 5), vec![0, 0, 0]);
}

fn mask(rows: &[&str]) -> Vec<bool> {
    rows.iter().flat_map(|r| r.chars().map(|c| c == '#')).collect()
}

#[test]
fn blobs_touch_by_their_sides() {
    let on = mask(&["##..#", "#..#.", "...#.", "....."]);
    let b = label_blobs(&on, 5, 4);
    let mut areas = b.areas.clone();
    areas.sort();
    assert_eq!(areas, vec![1, 2, 3]);
    assert_eq!(b.label[0], b.label[5]);
    assert!(b.label[4] != b.label[8] && b.label[2].is_none());
    assert_eq!(b.largest(&on, 5), Some(3));
    assert_eq!(b.smaller_than(&on, 5, 3), mask(&["....#", "...#.", "...#.", "....."]));
    let none = vec![false; 6];
    assert_eq!(label_blobs(&none, 3, 2).largest(&none, 3), None);
}

#[test]
fn blobs_need_a_core_and_a_size() {
    let on = mask(&["##.#", "##.#", "....", "#..#"]);
    let core = mask(&["#...", "....", "....", "#..."]);
    assert_eq!(keep_cored(&on, &core, 4, 4, 2), mask(&["##..", "##..", "....", "...."]));
    assert_eq!(keep_cored(&on, &core, 4, 4, 1), mask(&["##..", "##..", "....", "#..."]));
}

#[test]
fn holes_are_filled_but_bays_are_not() {
    let on = mask(&["####.", "#..#.", "##.#.", "####.", "#.###"]);
    assert_eq!(fill_holes(&on, 5, 5), mask(&["####.", "####.", "####.", "####.", "#.###"]));
    let again = fill_holes(&fill_holes(&on, 5, 5), 5, 5);
    assert_eq!(again, fill_holes(&on, 5, 5));
}

fn picture(w: usize, h: usize, seed: u32) -> Raster {
    Raster { w, h, d: noise(w * h * 3, seed).into_iter().map(|v| v as u8).collect() }
}

fn blurred(img: &Raster, r: i64, x: i64, y: i64, c: usize) -> u32 {
    let mut sum = 0u32;
    for dy in -r..=r {
        for dx in -r..=r {
            let xx = (x + dx).clamp(0, img.w as i64 - 1) as usize;
            let yy = (y + dy).clamp(0, img.h as i64 - 1) as usize;
            sum += img.d[(yy * img.w + xx) * 3 + c] as u32;
        }
    }
    let area = ((2 * r + 1) * (2 * r + 1)) as u32;
    (sum + area / 2) / area
}

#[test]
fn rows_are_blurred_as_they_come() {
    let img = picture(9, 6, 7);
    for r in [1usize, 2, 7] {
        let mut b = RowBlur::new(&img, r);
        for y in 0..6 {
            let row = b.row();
            for x in 0..9 {
                for c in 0..3 {
                    let want = blurred(&img, r as i64, x as i64, y as i64, c);
                    assert_eq!(row[x * 3 + c] as u32, want, "r={r} ({x},{y})");
                }
            }
        }
    }
}

#[test]
fn blocks_keep_their_least_blurred_value() {
    let img = picture(10, 7, 3);
    let low = block_minima(&img, 4, 3, 1);
    let mut want = vec![vec![255u32; 12]; 3];
    for y in 0..7usize {
        for x in 0..10usize {
            let g = (y * 3 / 7) * 4 + x * 4 / 10;
            assert_eq!(block_index(x, 10, 4), x * 4 / 10);
            for c in 0..3 {
                want[c][g] = want[c][g].min(blurred(&img, 1, x as i64, y as i64, c));
            }
        }
    }
    assert_eq!(low, want);
}

#[test]
fn thumbs_hold_the_darkest_brightness_of_each_block() {
    let mut img = Raster { w: 128, h: 64, d: vec![200; 128 * 64 * 3] };
    img.d[(10 * 128 + 20) * 3] = 0;
    let t = luma_thumb(&img);
    assert_eq!(t.len(), THUMB_COLS * 32);
    assert_eq!(t[0], 200 * 256);
    assert_eq!(t[5 * THUMB_COLS + 10], 200 * (150 + 29));
    assert!(t.iter().all(|&v| v <= THUMB_WHITE));
    assert!(luma_thumb(&Raster { w: 0, h: 5, d: Vec::new() }).is_empty());
}

#[test]
fn thin_streaks_leave_a_thumb_alone_but_a_pan_does_not() {
    let scene = |shift: usize, streak: bool| {
        let mut img = Raster { w: 256, h: 144, d: vec![20; 256 * 144 * 3] };
        for y in 0..144 {
            for x in 0..256 {
                if (x + shift) % 64 < 30 {
                    img.d[(y * 256 + x) * 3] = 70;
                }
                if streak && x == y {
                    for c in 0..3 {
                        img.d[(y * 256 + x) * 3 + c] = 255;
                    }
                }
            }
        }
        luma_thumb(&img)
    };
    assert_eq!(scene(0, false), scene(0, true));
    assert!(scene(0, false) != scene(20, false));
}

#[test]
fn resampling_gives_the_triangle_filter() {
    let img = picture(12, 8, 11);
    let out = resize(&img, 5, 3).unwrap();
    let buf = image::RgbImage::from_raw(12, 8, img.d.clone()).unwrap();
    let want = image::imageops::resize(&buf, 5, 3, image::imageops::FilterType::Triangle);
    assert_eq!((out.w, out.h), (5, 3));
    assert_eq!(&out.d, want.as_raw());
    assert!(out.d != img.d);
    assert!(resize(&img, 0, 3).is_none());
    assert!(resize(&img, 0x20_0000, 3).is_none());
    assert_eq!(copy(&img).d, img.d);
}

#[test]
fn small_pictures_are_not_shrunk() {
    let img = picture(40, 30, 4);
    assert_eq!(shrink(&img, 40).unwrap().d, img.d);
    let out = shrink(&img, 20).unwrap();
    assert_eq!((out.w, out.h), (20, 15));
    let thin = shrink(&picture(100, 1, 4), 10).unwrap();
    assert_eq!((thin.w, thin.h), (10, 1));
}
