use photo2video::scale::WORK_LONG_EDGE;
use photo2video::strength::preview_strength;

#[test]
fn preview_strength_only_bends_for_photos_bigger_than_the_work_size() {
    assert_eq!(preview_strength(55, 8251, 1600), 51);
    assert_eq!(preview_strength(80, 8251, 1600), 74);
    assert_eq!(preview_strength(80, WORK_LONG_EDGE, 1600), 80);
    assert_eq!(preview_strength(80, 1200, 1200), 80);
    assert_eq!(
        preview_strength(80, 8251, 2560),
        preview_strength(80, 8251, 1600)
    );
    assert_eq!(preview_strength(0, 8251, 1600), 0);
}

fn in_floats(strength: i32, source: u32, preview: u32) -> i32 {
    let gain = |long: u32| (long as f32 / 2560.0).max(1.0).powf(0.07).min(1.5);
    let k = gain(preview) / gain(source);
    ((strength as f32 * k).round() as i32).clamp(0, 100)
}

#[test]
fn strength_agrees_with_single_precision() {
    for source in [1u32, 2560, 2561, 5744, 8251, 9528, 23473, 40000, 900_000, u32::MAX] {
        for preview in [1u32, 1600, 2560, 4000, 30000] {
            for strength in [-5, 0, 1, 37, 55, 87, 99, 100, 250] {
                assert_eq!(
                    preview_strength(strength, source, preview),
                    in_floats(strength, source, preview),
                    "{strength} {source} {preview}"
                );
            }
        }
    }
}

#[test]
fn strength_grows_with_the_setting_and_never_past_the_photo() {
    for source in [100u32, 2560, 6000, 40000] {
        for preview in [80u32, 1600, 2560, 6000, 40000] {
            let all: Vec<i32> = (-3..=110).map(|s| preview_strength(s, source, preview)).collect();
            assert!(all.windows(2).all(|w| w[0] <= w[1]));
            assert!(all.iter().all(|r| (0..=100).contains(r)));
            if preview <= source {
                assert!((0..=100).all(|s| preview_strength(s, source, preview) <= s));
            }
        }
    }
}
