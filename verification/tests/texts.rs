use glaze_layout::container_id::{format_container_id, parse_container_id};
use glaze_layout::paths::{join_path, with_extension, with_file_name};
use glaze_layout::text::{
    chars_of, decimal_string, fields_of, lines_of, lower_chars, parse_u32_text, push_signed,
    text_sorts_before, to_upper_text, trim_text, unquote_text, words_of,
};

#[test]
fn characters_beyond_ascii_are_classified() {
    assert_eq!(words_of(&chars_of("a\u{2003}b\u{e9} c")), vec!["a", "b\u{e9}", "c"]);
    assert_eq!(trim_text("\u{3000} x \n"), "x");
    assert_eq!(lower_chars('A'), vec!['a']);
    assert_eq!(lower_chars('\u{130}'), vec!['i', '\u{307}']);
    assert_eq!(lower_chars('\u{c9}'), vec!['\u{e9}']);
}

#[test]
fn numbers_read_and_write() {
    assert_eq!(decimal_string(0), "0");
    assert_eq!(decimal_string(u64::MAX), "18446744073709551615");
    assert_eq!(parse_u32_text("4294967295"), Some(u32::MAX));
    assert_eq!(parse_u32_text("4294967296"), None);
    assert_eq!(parse_u32_text("+7"), Some(7));
    assert_eq!(parse_u32_text("+"), None);
    assert_eq!(parse_u32_text("-1"), None);
    assert_eq!(parse_u32_text(""), None);
    let mut out = String::new();
    push_signed(&mut out, i32::MIN);
    assert_eq!(out, "-2147483648");
}

#[test]
fn lines_and_fields_are_told_apart() {
    assert_eq!(lines_of("a\r\nb\n\nc\r"), vec!["a", "b", "", "c\r"]);
    assert_eq!(lines_of("a\n"), vec!["a"]);
    assert_eq!(lines_of(""), Vec::<String>::new());
    assert_eq!(fields_of("a,,b", ','), vec!["a", "", "b"]);
    assert_eq!(fields_of("", ','), vec![""]);
    assert_eq!(unquote_text("\"\"x\"y\""), "x\"y");
    assert_eq!(unquote_text("\"\""), "");
    assert_eq!(to_upper_text("Listening \u{e9}"), "LISTENING \u{e9}");
    assert!(text_sorts_before("10", "9"));
    assert!(text_sorts_before("a", "ab"));
    assert!(!text_sorts_before("a", "a"));
}

#[test]
fn paths_keep_their_directory() {
    assert_eq!(with_file_name("config.yaml", "layout.json"), "layout.json");
    assert_eq!(with_file_name(r"C:config.yaml", "layout.json"), "C:layout.json");
    assert_eq!(with_file_name("/a/b/", "c"), "/a/c");
    assert_eq!(with_file_name("/a/b/.", "c"), "/a/c");
    assert_eq!(with_file_name("/a/..", "c"), "/a/../c");
    assert_eq!(with_file_name("", "c"), "c");
    assert_eq!(with_file_name("/", "c"), "/c");
    assert_eq!(join_path(r"C:\Users\x", ".glzr"), r"C:\Users\x\.glzr");
    assert_eq!(join_path("C:/Users/x", ".glzr"), r"C:/Users/x\.glzr");
    assert_eq!(join_path(r"\\server\share\x", ".glzr"), r"\\server\share\x\.glzr");
    assert_eq!(join_path("/home/x", ".glzr"), "/home/x/.glzr");
    assert_eq!(join_path("x", ".glzr"), "x/.glzr");
    assert_eq!(join_path(r"/home/a\", ".glzr"), r"/home/a\/.glzr");
    assert_eq!(with_file_name(r"/home/a\b.yaml", "c"), "/home/c");
    assert_eq!(with_file_name(r"D:\a\b/c.yaml", "d"), r"D:\a\b/d");
    assert_eq!(join_path("/home/x/", ".glzr"), "/home/x/.glzr");
    assert_eq!(with_extension("/a/layout.log", "log.1"), "/a/layout.log.1");
    assert_eq!(with_extension("/a/.hidden", "x"), "/a/.hidden.x");
    assert_eq!(with_extension("/a/b.c/d", "x"), "/a/b.c/d.x");
    assert_eq!(with_extension("..", "x"), "..");
    let twice = with_file_name(&with_file_name("/a/b", "c"), "d");
    assert_eq!(twice, with_file_name("/a/b", "d"));
}

#[test]
fn container_ids_are_written_with_hyphens() {
    let id = 0x0011_2233_4455_6677_8899_aabb_ccdd_eeffu128;
    let shown = format_container_id(id);
    assert_eq!(shown, "00112233-4455-6677-8899-aabbccddeeff");
    assert_eq!(parse_container_id(&shown), Some(id));
    assert_eq!(parse_container_id("no id"), None);
}

#[test]
fn white_space_goes_beyond_ascii() {
    let wide = [
        '\u{85}', '\u{a0}', '\u{1680}', '\u{2000}', '\u{200a}', '\u{2028}', '\u{2029}', '\u{202f}',
        '\u{205f}', '\u{3000}',
    ];
    for c in wide {
        assert_eq!(words_of(&chars_of(&format!("a{c}b"))), vec!["a", "b"]);
        assert_eq!(trim_text(&format!("{c}a{c}")), "a");
    }
    for c in ['\u{1f}', '\u{180e}', '\u{200b}', '\u{2060}', '\u{feff}'] {
        assert_eq!(words_of(&chars_of(&format!("a{c}b"))), vec![format!("a{c}b")]);
    }
}

#[test]
fn different_ids_have_different_texts() {
    let ids = [0u128, 1, 1 << 64, u128::MAX];
    for a in ids {
        for b in ids {
            assert_eq!(format_container_id(a) == format_container_id(b), a == b);
        }
    }
}
