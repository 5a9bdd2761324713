use photo2video::edit::{blend_masked, crop, text_lines, turn, wipe_grid, ImageItem, TextItem, Wipe};
use photo2video::raster::Raster;
use photo2video::signed::{from_bits, Signed};
use photo2video::single::{share_from_bits, Single};

fn num(v: f32) -> Signed {
    from_bits(v.to_bits()).unwrap()
}

fn share(v: f32) -> Single {
    share_from_bits(v.to_bits()).unwrap()
}

fn numbered(w: usize, h: usize) -> Raster {
    Raster { w, h, d: (0..w * h * 3).map(|i| i as u8).collect() }
}

fn reds(img: &Raster) -> Vec<u8> {
    img.d.iter().step_by(3).copied().collect()
}

#[test]
fn quarter_turns_go_clockwise() {
    let img = numbered(3, 2);
    assert_eq!(reds(&img), vec![0, 3, 6, 9, 12, 15]);
    let one = turn(&img, 1);
    assert_eq!((one.w, one.h), (2, 3));
    assert_eq!(reds(&one), vec![9, 0, 12, 3, 15, 6]);
    assert_eq!(reds(&turn(&img, 2)), vec![15, 12, 9, 6, 3, 0]);
    assert_eq!(reds(&turn(&img, 3)), vec![6, 15, 3, 12, 0, 9]);
    assert_eq!(turn(&img, 0).d, img.d);
    assert_eq!(turn(&turn(&one, 1), 2).d, img.d);
}

#[test]
fn quarter_turns_agree_with_the_image_crate() {
    let img = numbered(5, 4);
    let buf = image::RgbImage::from_raw(5, 4, img.d.clone()).unwrap();
    assert_eq!(&turn(&img, 1).d, image::imageops::rotate90(&buf).as_raw());
    assert_eq!(&turn(&img, 2).d, image::imageops::rotate180(&buf).as_raw());
    assert_eq!(&turn(&img, 3).d, image::imageops::rotate270(&buf).as_raw());
}

#[test]
fn crops_are_cut_off_at_the_picture() {
    let img = numbered(4, 3);
    let part = crop(&img, 1, 1, 2, 2);
    assert_eq!((part.w, part.h), (2, 2));
    assert_eq!(reds(&part), vec![15, 18, 27, 30]);
    let edge = crop(&img, 3, 2, 10, 10);
    assert_eq!((edge.w, edge.h, reds(&edge)), (1, 1, vec![33]));
    assert_eq!(crop(&img, 9, 9, 2, 2).d.len(), 0);
}

#[test]
fn masks_mix_a_graded_copy_in() {
    let mut img = Raster { w: 4, h: 1, d: vec![100; 12] };
    let layer = Raster { w: 4, h: 1, d: vec![200; 12] };
    blend_masked(&mut img, &layer, &vec![share(0.0), share(0.25), share(0.5), share(1.0)]);
    assert_eq!(reds(&img), vec![100, 125, 150, 200]);
    let mut img = Raster { w: 2, h: 1, d: vec![100; 6] };
    let near = vec![share(1.0 / 512.0), share(1.0 - 1.0 / 512.0)];
    blend_masked(&mut img, &Raster { w: 2, h: 1, d: vec![0; 6] }, &near);
    assert_eq!(reds(&img), vec![100, 0]);
}

#[test]
fn grids_have_at_most_sixty_four_cells_along_a_side() {
    assert_eq!(wipe_grid(64, 10), (1, 64, 10));
    assert_eq!(wipe_grid(65, 10), (2, 33, 5));
    assert_eq!(wipe_grid(1000, 700), (16, 63, 44));
    assert_eq!(wipe_grid(1, 1), (1, 1, 1));
}

#[test]
fn blank_texts_are_not_drawn() {
    let t = TextItem::default();
    assert!(!t.visible());
    assert_eq!((t.size, t.x, t.y), (48, num(0.5), num(0.85)));
    assert!(!TextItem { text: " \n\t".to_string(), ..TextItem::default() }.visible());
    assert!(TextItem { text: " a ".to_string(), ..TextItem::default() }.visible());
}

#[test]
fn texts_are_split_at_line_ends() {
    assert_eq!(text_lines("a\nb c\n\n"), vec!["a", "b c"]);
    assert_eq!(text_lines("a\n\nb"), vec!["a", "", "b"]);
    assert_eq!(text_lines(" x "), vec![" x"]);
}

#[test]
fn overlays_need_a_file_a_size_and_some_ink() {
    let item = |path: &str, scale: f32, opacity: f32| ImageItem {
        path: path.to_string(),
        scale: num(scale),
        opacity: num(opacity),
        ..ImageItem::default()
    };
    assert!(item("a.png", 0.3, 1.0).visible());
    assert!(!item("", 0.3, 1.0).visible());
    assert!(!item("a.png", 0.001, 1.0).visible());
    assert!(item("a.png", 0.0011, 1.0).visible());
    assert!(!item("a.png", 0.3, 0.002).visible());
    assert!(!ImageItem::default().visible());
}

#[test]
fn strokes_need_points_a_width_and_strength() {
    let wipe = |n: usize, radius: f32, density: f32| Wipe {
        pts: vec![(num(0.5), num(0.5)); n],
        radius: num(radius),
        density: num(density),
        ..Wipe::default()
    };
    assert!(wipe(1, 0.1, 1.0).is_usable());
    assert!(!wipe(0, 0.1, 1.0).is_usable());
    assert!(!wipe(1, 0.001, 1.0).is_usable());
    assert!(!wipe(1, 0.1, 0.001).is_usable());
    assert!(Wipe::default().keep_detail && !Wipe::default().is_usable());
}
