use photo2video::backup::{
    failure, fmt_size, key_of, listing, newer, norm, plan, prune_order, step, target, validate, Action,
    Branch, Entry, Facts, Found, Kind, Plan, Refusal, Scan, Step, Trouble, CANCELLED,
};
use photo2video::path::PathName;
use std::collections::HashMap;

const SECOND: i128 = 1_000_000_000;
const NOW: i128 = 1_700_000_000 * SECOND;

fn names(rel: &str) -> Vec<String> {
    rel.split('/').map(|s| s.to_string()).collect()
}

fn path(names_below: &str) -> PathName {
    PathName { root: "/".to_string(), names: names(names_below) }
}

fn file(rel: &str, body: &str, secs_ago: i128) -> Found {
    let rel = names(rel);
    Found {
        key: key_of(&rel, false),
        rel,
        len: body.len() as u64,
        mtime: NOW - secs_ago * SECOND,
    }
}

fn kinds(p: &Plan) -> HashMap<String, Kind> {
    p.actions.iter().map(|a| (a.rel.join("/"), a.kind)).collect()
}

#[test]
fn only_the_destination_is_ever_written() {
    let src = listing(vec![
        file("來源比較新.txt", "new", 0),
        file("目的比較新.txt", "舊的留著", 600),
        file("只有來源有.txt", "a", 0),
        file("兩邊一樣.txt", "same", 300),
    ]);
    let dst = listing(vec![
        file("來源比較新.txt", "old", 600),
        file("目的比較新.txt", "new", 0),
        file("只有目的有.txt", "b", 0),
        file("兩邊一樣.txt", "same", 300),
    ]);
    let p = plan(&src, &dst, Vec::new());
    let got = kinds(&p);
    assert_eq!(got.get("來源比較新.txt"), Some(&Kind::Update));
    assert_eq!(got.get("只有來源有.txt"), Some(&Kind::Copy));
    assert_eq!(got.get("只有目的有.txt"), Some(&Kind::Extra));
    assert_eq!(got.get("目的比較新.txt"), None);
    assert_eq!(got.len(), 3);
    assert_eq!(p.same, 1);
    assert_eq!(p.newer_dst, 1);
    let of = |k: Kind| p.actions.iter().filter(|a| a.kind == k).count();
    assert_eq!(src.len(), of(Kind::Copy) + of(Kind::Update) + p.same + p.newer_dst);
    assert_eq!(dst.len(), of(Kind::Update) + of(Kind::Extra) + p.same + p.newer_dst);
    let (s, d) = (path("r/src"), path("r/dst"));
    for a in &p.actions {
        match step(a, &s, &d, false) {
            Step::CopyOver(from, to) => {
                assert!(from.starts_with(&s));
                assert!(to.starts_with(&d) && !to.starts_with(&s));
            }
            Step::Remove(to) => assert!(to.starts_with(&d) && !to.starts_with(&s)),
            Step::Leave => panic!("every action does something"),
        }
    }
}

#[test]
fn copy_keeps_mtime_so_the_next_run_has_nothing_to_do() {
    let src = listing(vec![file("子資料夾/照片.jpg", "xxxx", 3600)]);
    let p = plan(&src, &Vec::new(), Vec::new());
    assert_eq!(p.actions.len(), 1);
    let copied = listing(vec![file("子資料夾/照片.jpg", "xxxx", 3600)]);
    let p2 = plan(&src, &copied, Vec::new());
    assert!(p2.actions.is_empty());
    assert_eq!(p2.same, 1);
}

#[test]
fn extra_files_are_only_deleted_when_keep_is_off() {
    let act = Action { rel: names("多出來的.txt"), kind: Kind::Extra, bytes: 1 };
    let (s, d) = (path("r/src"), path("r/dst"));
    assert!(matches!(step(&act, &s, &d, true), Step::Leave));
    match step(&act, &s, &d, false) {
        Step::Remove(p) => assert!(p.same(&path("r/dst/多出來的.txt"))),
        _ => panic!("it is to be deleted"),
    }
}

#[test]
fn a_missing_destination_is_created_under_the_picked_folder() {
    let src = path("r/2025_鳥_精選");
    let picked = path("r/備份碟");
    let dst = target(&src, &picked, false);
    assert!(dst.same(&path("r/備份碟/2025_鳥_精選")));
    let facts = |parent: bool| Facts {
        src_is_dir: true,
        dst_is_dir: false,
        dst_exists: false,
        dst_parent_is_dir: parent,
    };
    assert!(validate(&facts(true), &src, &dst).is_ok());
    assert!(target(&src, &dst, false).same(&dst));
    let p = plan(&listing(vec![file("IMG_001.jpg", "aaa", 0)]), &Vec::new(), Vec::new());
    assert_eq!(kinds(&p).get("IMG_001.jpg"), Some(&Kind::Copy));
    assert!(matches!(validate(&facts(false), &src, &dst), Err(Refusal::NoDestination)));
}

#[test]
fn kept_extras_do_not_count_as_work_to_do() {
    let src = listing(vec![file("兩邊都有.txt", "x", 300)]);
    let dst = listing(vec![file("兩邊都有.txt", "x", 300), file("只有目的有.txt", "y", 0)]);
    let p = plan(&src, &dst, Vec::new());
    assert_eq!(p.count(Kind::Extra), 1);
    assert_eq!(p.same, 1);
    assert_eq!(p.todo(true), 0);
    assert_eq!(p.todo(false), 1);
}

#[test]
fn nested_folders_are_rejected_before_anything_is_copied() {
    let facts = Facts {
        src_is_dir: true,
        dst_is_dir: true,
        dst_exists: true,
        dst_parent_is_dir: true,
    };
    let src = path("r/src");
    let inner = path("r/src/備份");
    assert!(matches!(validate(&facts, &src, &inner), Err(Refusal::DestinationInside)));
    assert!(matches!(validate(&facts, &inner, &src), Err(Refusal::SourceInside)));
    assert!(matches!(validate(&facts, &src, &src), Err(Refusal::SameFolder)));
    let up = target(&src, &path("r"), false);
    assert!(matches!(validate(&facts, &src, &up), Err(Refusal::SameFolder)));
    let gone = Facts { src_is_dir: false, ..facts };
    assert!(matches!(validate(&gone, &src, &inner), Err(Refusal::NoSource)));
    for r in [
        Refusal::NoSource,
        Refusal::NoDestination,
        Refusal::SameFolder,
        Refusal::DestinationInside,
        Refusal::SourceInside,
    ] {
        assert!(!r.message().is_empty());
    }
}

/// Walks a tree of files, given by their names, the way a folder would be read.
fn walk(files: &[(&str, u64, i128)], recursive: bool) -> Vec<Found> {
    let mut s = Scan::new(recursive, false);
    while let Some(dir) = s.next() {
        s.opened();
        let mut seen: Vec<String> = Vec::new();
        for (rel, len, t) in files {
            let n = names(rel);
            if n.len() <= dir.len() || n[..dir.len()] != dir[..] {
                continue;
            }
            let name = n[dir.len()].clone();
            if n.len() == dir.len() + 1 {
                s.entry(&dir, &name, Entry::File(*len, *t));
            } else if !seen.contains(&name) {
                s.entry(&dir, &name, Entry::Folder);
                seen.push(name);
            }
        }
        s.entry(&dir, "link", Entry::Link);
        s.entry(&dir, "pipe", Entry::Other);
    }
    let (found, skipped) = s.finish();
    assert!(skipped.is_empty());
    found
}

#[test]
fn subfolders_are_skipped_when_recursion_is_off() {
    let src = walk(&[("這一層.txt", 1, 0), ("裡面/深的.txt", 1, 0)], false);
    let dst = walk(&[("裡面/深的.txt", 1, 0)], false);
    let p = plan(&src, &dst, Vec::new());
    let got = kinds(&p);
    assert_eq!(got.get("這一層.txt"), Some(&Kind::Copy));
    assert_eq!(got.len(), 1);
    let all = walk(&[("這一層.txt", 1, 0), ("裡面/深的.txt", 1, 0)], true);
    assert_eq!(all.len(), 2);
}

#[test]
fn pruning_only_removes_empty_folders_the_source_does_not_have() {
    let b = |rel: &str, shared: bool| Branch { rel: names(rel), shared };
    let order = prune_order(vec![
        b("兩邊都有", true),
        b("多出來的", false),
        b("還有東西", false),
        b("多出來的/更裡面", false),
    ]);
    let got: Vec<String> = order.iter().map(|x| x.rel.join("/")).collect();
    assert_eq!(got.len(), 3);
    assert_eq!(got[0], "多出來的/更裡面");
    assert!(!got.contains(&"兩邊都有".to_string()));
    assert!(got.contains(&"多出來的".to_string()) && got.contains(&"還有東西".to_string()));
}

#[test]
fn an_unreadable_root_ends_the_scan_and_other_folders_are_skipped() {
    let mut s = Scan::new(true, false);
    assert_eq!(s.next(), Some(Vec::new()));
    assert_eq!(s.unreadable("/x", "沒有權限"), Some("無法讀取「/x」：沒有權限".to_string()));
    let mut s = Scan::new(true, false);
    s.next();
    s.opened();
    s.entry(&Vec::new(), "裡", Entry::Folder);
    assert_eq!(s.next(), Some(vec!["裡".to_string()]));
    assert_eq!(s.unreadable("/x/裡", "沒有權限"), None);
    assert_eq!(s.next(), None);
    let (found, skipped) = s.finish();
    assert!(found.is_empty());
    assert_eq!(skipped, vec!["/x/裡（沒有權限）".to_string()]);
}

#[test]
fn keys_fold_case_and_slashes() {
    assert_eq!(key_of(&vec!["A\\B".to_string(), "Ç.JPG".to_string()], false), "A/B/Ç.JPG");
    assert_eq!(key_of(&vec!["A\\B".to_string(), "Ç.JPG".to_string()], true), "a/b/ç.jpg");
}

#[test]
fn files_with_one_key_count_once_and_the_last_one_wins() {
    let mut a = file("x.txt", "1", 0);
    let mut b = file("X.txt", "22", 0);
    a.key = "x.txt".to_string();
    b.key = "x.txt".to_string();
    let l = listing(vec![a, file("a.txt", "3", 0), b]);
    assert_eq!(l.len(), 2);
    let x = l.iter().find(|f| f.key == "x.txt").unwrap();
    assert_eq!((x.len, x.rel[0].as_str()), (2, "X.txt"));
}

#[test]
fn two_seconds_apart_is_the_same_time() {
    assert_eq!(newer(NOW, NOW), None);
    assert_eq!(newer(NOW + 2 * SECOND, NOW), None);
    assert_eq!(newer(NOW + 2 * SECOND + 1, NOW), Some(true));
    assert_eq!(newer(NOW, NOW + 2 * SECOND), None);
    assert_eq!(newer(NOW, NOW + 2 * SECOND + 1), Some(false));
}

#[test]
fn a_half_copied_file_is_copied_again() {
    let p = plan(
        &listing(vec![file("a", "xxxx", 10)]),
        &listing(vec![file("a", "xx", 9)]),
        vec!["/y（忙）".to_string()],
    );
    assert_eq!(kinds(&p).get("a"), Some(&Kind::Update));
    assert_eq!(p.bytes(Kind::Update), 4);
    assert_eq!(p.skipped, vec!["/y（忙）".to_string()]);
}

#[test]
fn actions_come_by_kind_and_then_by_name() {
    let p = plan(
        &listing(vec![file("b", "1", 0), file("a/z", "1", 0), file("u", "1", 0)]),
        &listing(vec![file("u", "1", 99), file("e", "1", 0)]),
        Vec::new(),
    );
    let got: Vec<(Kind, String)> = p.actions.iter().map(|a| (a.kind, a.rel.join("/"))).collect();
    assert_eq!(
        got,
        vec![
            (Kind::Copy, "a/z".to_string()),
            (Kind::Copy, "b".to_string()),
            (Kind::Update, "u".to_string()),
            (Kind::Extra, "e".to_string()),
        ]
    );
    assert_eq!(p.count(Kind::Copy), 2);
    assert_eq!(Kind::Copy.label(), "新增");
    assert_eq!(Kind::Update.label(), "更新");
    assert_eq!(Kind::Extra.label(), "目的地多餘檔案");
}

#[test]
fn a_source_without_a_name_is_written_as_it_is() {
    let drive = PathName { root: "O:\\".to_string(), names: Vec::new() };
    assert!(target(&drive, &path("r/備份"), false).same(&path("r/備份")));
    let upper = path("r/PHOTOS");
    assert!(target(&path("q/photos"), &upper, true).same(&upper));
    assert!(!target(&path("q/photos"), &upper, false).same(&upper));
}

#[test]
fn missing_folders_are_resolved_from_what_is_there() {
    let p = path("link/new/deep");
    let there = path("real");
    let canon = vec![None, None, Some(there)];
    assert!(norm(&p, &canon, false).same(&path("real/new/deep")));
    assert!(norm(&p, &Vec::new(), false).same(&p));
    assert!(norm(&path("A/B"), &Vec::new(), true).same(&path("a/b")));
}

fn size_in_floats(bytes: u64) -> String {
    let b = bytes as f64;
    let k = 1024.0;
    if b < k {
        format!("{bytes} B")
    } else if b < k * k {
        format!("{:.0} KB", b / k)
    } else if b < k * k * k {
        format!("{:.1} MB", b / (k * k))
    } else {
        format!("{:.2} GB", b / (k * k * k))
    }
}

#[test]
fn sizes_read_like_formatted_numbers() {
    assert_eq!(fmt_size(0), "0 B");
    assert_eq!(fmt_size(1536), "2 KB");
    assert_eq!(fmt_size(2560), "2 KB");
    assert_eq!(fmt_size(3 * 1024 * 1024 / 2), "1.5 MB");
    assert_eq!(fmt_size(5 << 30), "5.00 GB");
    let mut n: u64 = 1;
    while n < u64::MAX / 3 {
        for m in [n - 1, n, n + 1, n + n / 2, n + n / 8] {
            assert_eq!(fmt_size(m), size_in_floats(m), "{m}");
        }
        n = n * 3 / 2 + 1;
    }
    for m in [u64::MAX, u64::MAX - 1023, (1 << 53) + 1, (1 << 53) + 3, 1048575, 1073741823] {
        assert_eq!(fmt_size(m), size_in_floats(m), "{m}");
    }
}

#[test]
fn failures_say_what_went_wrong() {
    assert_eq!(failure("a/b", Trouble::NotRemoved, "忙"), "a/b：刪除失敗（忙）");
    assert_eq!(failure("a", Trouble::NotCopied, "滿"), "a：複製失敗（滿）");
    assert_eq!(failure("a", Trouble::NoFolder, "滿"), "a：無法建立資料夾（滿）");
    assert_eq!(CANCELLED, "已中止");
}
