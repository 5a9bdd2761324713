use photo2video::path::PathName;
use photo2video::project::{
    app_version, file_stem, folders, module_named, name_key, parse, project_dir, remember_name,
    saved_name, strip_stamp, unreadable_project, with_stamp, without_mark, AnyProject,
    DehazeProject, EnhanceProject, FolderFacts, Module, StackProject, KIND_DEHAZE, PROJECT_DIR,
    VERSION,
};

#[test]
fn a_file_says_which_part_it_belongs_to() {
    for (text, m) in [
        ("{\"module\":\"dehaze\"}", Module::Dehaze),
        ("{\"module\":\"stack\",\"cur\":3}", Module::Stack),
        ("{\"module\":\"movie\"}", Module::Movie),
        ("{\"module\":\"enhance\"}", Module::Enhance),
        ("{\"module\":\"video\"}", Module::Video),
        ("{\"module\":\"something\"}", Module::Video),
        ("{\"module\":7}", Module::Video),
        ("{}", Module::Video),
        ("[1, 2]", Module::Video),
        ("\u{feff}{\"module\":\"stack\"}", Module::Stack),
    ] {
        assert_eq!(parse(text), Ok(m), "{text}");
    }
}

#[test]
fn broken_files_are_refused_with_the_reason() {
    let e = parse("{\"module\":").unwrap_err();
    let why = serde_json::from_str::<serde_json::Value>("{\"module\":").unwrap_err().to_string();
    assert_eq!(e, format!("內容不是有效的專案檔：{why}"));
    assert_eq!(unreadable_project("no"), "專案內容讀不起來：no");
}

#[test]
fn kinds_come_back_as_modules() {
    for m in [Module::Video, Module::Dehaze, Module::Stack, Module::Movie, Module::Enhance] {
        assert_eq!(module_named(&Some(m.kind().to_string())), m);
    }
    assert_eq!(module_named(&None), Module::Video);
    assert_eq!(Module::Dehaze.kind(), KIND_DEHAZE);
    let p: AnyProject<u8, u8, u8, u8, u8> = AnyProject::Movie(Box::new(1));
    assert_eq!(p.module(), Module::Movie);
}

#[test]
fn only_one_mark_is_taken_off() {
    assert_eq!(without_mark("\u{feff}x"), "x");
    assert_eq!(without_mark("\u{feff}\u{feff}x"), "\u{feff}x");
    assert_eq!(without_mark("x\u{feff}"), "x\u{feff}");
}

#[test]
fn names_get_their_stamp() {
    assert_eq!(with_stamp(" night ", Some("20240102-0304")), "night-20240102-0304");
    assert_eq!(with_stamp("night", None), "night");
    assert_eq!(with_stamp("  ", Some("20240102-0304")), "20240102-0304");
    assert_eq!(with_stamp("", None), "");
    assert_eq!(file_stem("night", Some("20240102-0304")), "night-20240102-0304");
}

#[test]
fn stamps_come_off_again() {
    assert_eq!(strip_stamp("night-20240102-0304"), "night");
    assert_eq!(strip_stamp("night---20240102-0304"), "night");
    assert_eq!(strip_stamp("night-2024010-0304"), "night-2024010-0304");
    assert_eq!(strip_stamp("night-20240102_0304"), "night-20240102_0304");
    assert_eq!(strip_stamp("-20240102-0304"), "");
    assert_eq!(strip_stamp("20240102-0304"), "20240102-0304");
    assert_eq!(strip_stamp("煙火-20240102-0304"), "煙火");
    assert_eq!(strip_stamp(&with_stamp("a-b", Some("19991231-2359"))), "a-b");
}

#[test]
fn names_are_remembered_by_kind() {
    assert_eq!(name_key("stack"), "project_name_stack");
    assert_eq!(
        remember_name("stack", "  my night "),
        Some(("project_name_stack".to_string(), "my night".to_string()))
    );
    assert_eq!(remember_name("stack", "  "), None);
    assert_eq!(saved_name(Some(" kept "), "other"), "kept");
    assert_eq!(saved_name(Some("   "), "other"), "other");
    assert_eq!(saved_name(None, "other"), "other");
}

fn path(root: &str, names: &[&str]) -> PathName {
    PathName { root: root.to_string(), names: names.iter().map(|n| n.to_string()).collect() }
}

#[test]
fn projects_lie_below_the_photos() {
    let photo = path("/", &["pics", "a.jpg"]);
    let facts = |dir_there, root_there, made| FolderFacts { dir_there, root_there, made };
    let at = |f: FolderFacts, create: bool| {
        project_dir(folders(Some(&photo), "stack").unwrap(), &f, create).map(|p| p.names)
    };
    let dir = vec!["pics".to_string(), PROJECT_DIR.to_string(), "stack".to_string()];
    assert_eq!(at(facts(true, true, false), false), Some(dir.clone()));
    assert_eq!(at(facts(false, false, true), true), Some(dir));
    assert_eq!(at(facts(false, false, false), true), Some(vec!["pics".to_string()]));
    let root = vec!["pics".to_string(), PROJECT_DIR.to_string()];
    assert_eq!(at(facts(false, true, false), false), Some(root.clone()));
    assert_eq!(at(facts(false, false, false), false), None);
    assert_eq!(folders(Some(&photo), "").unwrap().dir.names, root);
    assert!(folders(None, "stack").is_none());
    assert!(folders(Some(&path("", &["a.jpg"])), "stack").is_none());
    assert!(folders(Some(&path("/", &["a.jpg"])), "stack").is_some());
}

#[test]
fn new_projects_start_with_the_usual_settings() {
    let d: DehazeProject<(), ()> = DehazeProject::new((), ());
    assert_eq!((d.version, d.module.as_str(), d.brush_size), (VERSION, "dehaze", 10));
    assert!(d.auto_on && d.per_photo && d.photos.is_empty() && d.app_version.is_empty());
    assert_eq!((d.params.strength, d.object_feather, d.wipe_feather), (80, 15, 45));
    let s: StackProject<(), (), ()> = StackProject::new((), (), ());
    assert_eq!((s.module.as_str(), s.feather, s.mask_density), ("stack", 25, 80));
    assert!(s.auto_align && s.protect_land && !s.pro);
    let e: EnhanceProject<(), (), (), ()> = EnhanceProject::new((), ());
    assert_eq!((e.module.as_str(), e.auto_amount, e.per_photo), ("enhance", 100, false));
    assert_eq!(app_version(), "0.1.0");
}
