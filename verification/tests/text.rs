use photo2video::cli::{parse_color, parse_crop, parse_list, parse_number, parse_setting, parse_switch, split};
use photo2video::path::PathName;
use photo2video::text::{
    ascii_lower, compare, join_with, replace_char, replace_with, same, to_decimal, trim, trim_tail,
    Side,
};

#[test]
fn texts_are_split_at_every_separator() {
    assert_eq!(split("a,b,,c", ','), vec!["a", "b", "", "c"]);
    assert_eq!(split("", ','), vec![""]);
    assert_eq!(split(",", ','), vec!["", ""]);
}

#[test]
fn numbers_are_read_as_rust_reads_them() {
    for s in ["0", "7", "+7", "007", "255", "256", "-1", "", "+", " 5", "1a", "4294967295", "4294967296"] {
        assert_eq!(parse_number(s, 255), s.parse::<u8>().ok().map(|v| v as u32), "{s}");
        assert_eq!(parse_number(s, u32::MAX), s.parse::<u32>().ok(), "{s}");
    }
    assert_eq!(parse_list("1, 2,x, 300,4 ", 255), vec![1, 2, 4]);
}

#[test]
fn colours_have_three_parts() {
    assert_eq!(parse_color("10, 20,30"), Some([10, 20, 30]));
    assert_eq!(parse_color("10,20"), None);
    assert_eq!(parse_color("10,20,30,40"), None);
    assert_eq!(parse_color("10,x,20,30"), Some([10, 20, 30]));
    assert_eq!(parse_color("10,256,30"), None);
}

#[test]
fn crops_are_kept_on_the_picture() {
    assert_eq!(parse_crop("1,2,3,4", 10, 10), Some((1, 2, 3, 4)));
    assert_eq!(parse_crop("8,9,5,5", 10, 10), Some((8, 9, 2, 1)));
    assert_eq!(parse_crop("50,60,5,5", 10, 10), Some((9, 9, 1, 1)));
    assert_eq!(parse_crop("1,2,3", 10, 10), None);
}

#[test]
fn settings_fall_back_to_the_usual_value() {
    assert_eq!(parse_setting(Some("35"), 80), 35);
    assert_eq!(parse_setting(Some("-35"), 80), -35);
    assert_eq!(parse_setting(Some("x"), 80), 80);
    assert_eq!(parse_setting(None, 80), 80);
    for s in ["2147483647", "2147483648", "-2147483648", "-2147483649", "+5", "-", ""] {
        assert_eq!(parse_setting(Some(s), 7), s.parse::<i32>().unwrap_or(7), "{s}");
    }
    assert!(parse_switch("1") && parse_switch("") && !parse_switch("0"));
}

#[test]
fn blanks_are_trimmed_as_rust_trims_them() {
    for s in ["", "  a b ", "\u{3000}煙火\u{a0}\n", "\t\r\n", "x"] {
        assert_eq!(trim(s), s.trim());
        assert_eq!(trim_tail(s), s.trim_end());
    }
}

#[test]
fn texts_are_replaced_and_joined() {
    assert_eq!(replace_char("a\\b\\c", '\\', '/'), "a/b/c");
    assert_eq!(replace_with("it's", '\'', "'\\''"), "it'\\''s");
    assert_eq!(join_with(&vec!["a".to_string(), "b".to_string()], "\n"), "a\nb");
    assert_eq!(join_with(&Vec::new(), "\n"), "");
    assert_eq!(ascii_lower("ÀBc-Z"), "Àbc-z");
    assert_eq!((to_decimal(0), to_decimal(u64::MAX)), ("0".to_string(), u64::MAX.to_string()));
}

#[test]
fn texts_are_compared_letter_by_letter() {
    for (a, b) in [("a", "b"), ("a", "aa"), ("煙", "火"), ("", ""), ("ab", "ab"), ("Z", "a")] {
        let want = if a < b {
            Side::Before
        } else if a == b {
            Side::Same
        } else {
            Side::After
        };
        assert!(matches!(
            (compare(a, b), want),
            (Side::Before, Side::Before) | (Side::Same, Side::Same) | (Side::After, Side::After)
        ));
        assert_eq!(same(a, b), a == b);
    }
}

fn path(root: &str, names: &[&str]) -> PathName {
    PathName { root: root.to_string(), names: names.iter().map(|n| n.to_string()).collect() }
}

#[test]
fn paths_lie_below_each_other() {
    let top = path("/", &["a", "b"]);
    let deep = top.join("c").join_all(&vec!["d".to_string()]);
    assert_eq!(deep.names, vec!["a", "b", "c", "d"]);
    assert!(deep.starts_with(&top) && top.starts_with(&top) && !top.starts_with(&deep));
    assert!(!path("C:\\", &["a", "b", "c"]).starts_with(&top));
    assert!(top.same(&path("/", &["a", "b"])) && !top.same(&deep));
    assert_eq!(deep.file_name(), Some("d".to_string()));
    assert_eq!(path("/", &[]).file_name(), None);
    assert_eq!(path("/", &["a", ".."]).file_name(), None);
    assert_eq!(path("C:\\", &["PHOTOS", "ÀÉ"]).lowered().names, vec!["photos", "àé"]);
}
