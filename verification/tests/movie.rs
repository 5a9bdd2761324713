use photo2video::movie::{
    audio_args, batch_frames, clip_filter, complain, concat_list, concat_outcome, encoder_input,
    encoder_output, fit_filter, frame_plan, make_ready, scale_filter, seg_at, span, to_image,
    vf_chain, Clip, Export, Grab, Phase, Source, VideoInfo,
};

#[test]
fn filters_are_chained() {
    assert_eq!(vf_chain(None, None), None);
    assert_eq!(vf_chain(Some("crop=1:2:3:4"), None).unwrap(), "crop=1:2:3:4");
    assert_eq!(vf_chain(None, Some(scale_filter(640, 360))).unwrap(), "scale=640:360");
    assert_eq!(
        vf_chain(Some("crop=1:2:3:4"), Some(fit_filter(800))).unwrap(),
        "crop=1:2:3:4,scale=800:800:force_original_aspect_ratio=decrease"
    );
    assert_eq!(
        clip_filter("12.000", Some("crop=1:2:3:4"), 480),
        "fps=12.000,crop=1:2:3:4,scale=480:480:force_original_aspect_ratio=decrease"
    );
    assert_eq!(
        clip_filter("24.000", None, 480),
        "fps=24.000,scale=480:480:force_original_aspect_ratio=decrease"
    );
}

#[test]
fn sound_is_copied_where_it_can_be() {
    assert_eq!(audio_args(None), vec!["-an"]);
    assert_eq!(audio_args(Some("aac")), vec!["-c:a", "copy"]);
    assert_eq!(audio_args(Some("pcm_s16le")), vec!["-c:a", "aac", "-b:a", "192k"]);
}

#[test]
fn the_encoder_is_told_what_comes() {
    assert_eq!(
        encoder_input(640, 360, "29.97"),
        vec!["-f", "rawvideo", "-pix_fmt", "rgb24", "-s", "640x360", "-r", "29.97", "-i", "pipe:0"]
    );
    let codec = vec!["-c:v".to_string(), "libx264".to_string()];
    let quiet = encoder_output(None, &codec);
    assert_eq!(quiet[..2], ["-map", "0:v:0"]);
    assert_eq!(quiet.last().unwrap(), "-an");
    let loud = encoder_output(Some("aac"), &codec);
    assert_eq!(loud[..4], ["-map", "0:v:0", "-map", "1:a:0?"]);
    assert_eq!(loud.last().unwrap(), "-shortest");
}

#[test]
fn large_frames_come_in_small_batches() {
    assert_eq!(batch_frames(4, 100, 100), 8);
    assert_eq!(batch_frames(4, 20000, 20000), 4);
    assert!(batch_frames(0, 100, 100) >= 1);
}

#[test]
fn frames_need_all_their_bytes() {
    assert_eq!(to_image(2, 1, vec![1, 2, 3, 4, 5, 6]).ok().unwrap().d, vec![1, 2, 3, 4, 5, 6]);
    assert_eq!(to_image(2, 1, vec![1, 2, 3, 4, 5]).err(), Some("影格資料長度不對"));
    assert_eq!(VideoInfo { w: 640, h: 360, audio: None }.long(), 640);
}

#[test]
fn parts_are_listed_for_joining() {
    let parts = vec!["C:\\a\\b.mp4".to_string(), "it's.mp4".to_string()];
    assert_eq!(concat_list(&parts).unwrap(), "file 'C:/a/b.mp4'\nfile 'it'\\''s.mp4'\n");
    assert_eq!(concat_list(&Vec::new()), Err("沒有可以合併的片段"));
    assert_eq!(concat_outcome(true, true, &Vec::new()), Ok(()));
    assert_eq!(concat_outcome(true, false, &Vec::new()), Err("合併失敗".to_string()));
    let errs = vec!["a".to_string(), "b".to_string()];
    assert_eq!(concat_outcome(false, true, &errs), Err("a\nb".to_string()));
    assert_eq!(complain(&errs, "c"), "a\nb");
}

#[test]
fn the_last_segment_that_has_begun_is_on() {
    assert_eq!(seg_at(&vec![true, true, false]), 1);
    assert_eq!(seg_at(&vec![false, false]), 0);
    assert_eq!(seg_at(&vec![true, false, true]), 2);
    assert_eq!(seg_at(&Vec::new()), 0);
}

#[test]
fn frames_between_anchors_lean_on_them() {
    assert_eq!(span(1, 5, 2), Some((0, 2)));
    assert_eq!(span(2, 5, 2), None);
    assert_eq!(span(3, 4, 2), None);
    let plan = frame_plan(&vec![false; 7], 3);
    assert_eq!(plan[0], Source::Exact);
    assert_eq!(plan[1], Source::Between(0, 3));
    assert_eq!(plan[5], Source::Between(3, 6));
    assert_eq!(plan[6], Source::Exact);
    let mut fresh = vec![false; 5];
    fresh[1] = true;
    assert_eq!(frame_plan(&fresh, 2)[1], Source::Exact);
    assert!(frame_plan(&fresh, 0).iter().all(|s| *s == Source::Exact));
}

#[test]
fn segments_are_made_ready_once() {
    let mut ready = vec![false, true, false, false];
    assert_eq!(make_ready(&mut ready, 0, 2), vec![0, 2]);
    assert_eq!(ready, vec![true, true, true, false]);
    assert_eq!(make_ready(&mut ready, 0, 2), Vec::<usize>::new());
}

fn started() -> Export {
    let mut e = Export::new(1, 1).ok().unwrap();
    e.check(false);
    e.frame(4, 4);
    assert_eq!(e.phase(), Phase::Start);
    assert_eq!(e.dims(), Some((4, 4)));
    e
}

#[test]
fn an_export_runs_to_its_end() {
    let mut e = started();
    e.launch(Ok(()));
    assert_eq!(e.batch(), 1);
    while e.phase() == Phase::Fill {
        e.frame(4, 4);
    }
    let n = e.batch() as u64;
    e.work(Ok(()));
    e.write(true);
    assert_eq!((e.phase(), e.done()), (Phase::Check, n));
    e.check(false);
    e.frame(4, 4);
    e.end();
    e.work(Ok(()));
    e.write(true);
    assert_eq!((e.phase(), e.done(), e.breaks_off()), (Phase::Over, n + 1, false));
    assert_eq!(e.outcome(Some((true, Vec::new()))), Ok(()));
}

#[test]
fn an_export_says_why_it_failed() {
    assert_eq!(Export::new(1, 0).err(), Some("沒有可以套用的設定"));

    let mut e = Export::new(1, 1).ok().unwrap();
    e.check(true);
    assert!(e.breaks_off());
    assert_eq!(e.outcome(None), Err(String::new()));

    let mut e = started();
    e.launch(Err("no encoder".to_string()));
    assert_eq!(e.outcome(None), Err("no encoder".to_string()));

    let mut e = started();
    e.launch(Ok(()));
    e.end();
    e.work(Err("no frames".to_string()));
    assert!(e.breaks_off());
    assert_eq!(e.outcome(Some((false, Vec::new()))), Err("no frames".to_string()));

    let mut e = started();
    e.launch(Ok(()));
    e.end();
    e.work(Ok(()));
    e.write(false);
    assert_eq!(e.outcome(Some((true, Vec::new()))), Err("影片編碼中斷".to_string()));

    let mut e = Export::new(1, 1).ok().unwrap();
    e.check(false);
    e.complaint("bad stream".to_string());
    e.end();
    assert_eq!(e.outcome(None), Err("bad stream".to_string()));

    let mut e = Export::new(1, 1).ok().unwrap();
    e.check(false);
    e.end();
    assert_eq!(e.outcome(None), Err("讀不到這支影片的畫面".to_string()));

    let mut e = started();
    e.launch(Ok(()));
    e.end();
    e.work(Ok(()));
    e.write(true);
    assert_eq!(e.outcome(Some((false, Vec::new()))), Err("影片編碼失敗".to_string()));
}

#[test]
fn a_grab_keeps_the_first_frame_and_the_first_sound() {
    let mut g = Grab::new();
    g.take_error("noise".to_string());
    g.take_frame(2, 1, vec![1; 6]);
    g.take_frame(3, 1, vec![2; 9]);
    g.take_audio("aac".to_string());
    g.take_audio("mp3".to_string());
    assert_eq!(g.finish(), Ok((2, 1, vec![1; 6], Some("aac".to_string()))));
    assert_eq!(Grab::new().finish(), Err("讀不到這支影片的畫面（格式可能不支援）".to_string()));
    let mut g = Grab::new();
    g.take_error("a".to_string());
    g.take_error("b".to_string());
    assert_eq!(g.finish(), Err("a\nb".to_string()));
}

#[test]
fn a_clip_keeps_frames_of_one_size() {
    let mut c = Clip::new(2);
    c.take_frame(2, 1, vec![1; 6]);
    c.take_frame(3, 1, vec![9; 9]);
    c.take_frame(2, 1, vec![2; 6]);
    c.take_frame(2, 1, vec![3; 6]);
    assert_eq!(c.finish(), Ok((2, 1, vec![vec![1; 6], vec![2; 6]])));
    assert_eq!(Clip::new(3).finish(), Err("這個時間點抓不到畫面（可能已經是片尾）".to_string()));
    let mut c = Clip::new(3);
    c.take_error("x".to_string());
    assert_eq!(c.finish(), Err("x".to_string()));
}
