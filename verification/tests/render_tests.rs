use lister::entry::{FileKind, MetaInfo};
use lister::error::Error;
use lister::render::Render;
use lister::strutil::u64_to_string;

fn args(list: &[&str]) -> Vec<String> {
    list.iter().map(|s| s.to_string()).collect()
}

fn names(list: &[&str]) -> Vec<String> {
    list.iter().map(|s| s.to_string()).collect()
}

fn regular(mode: u32, uid: u32, gid: u32, size: u64, mtime: i64) -> Option<MetaInfo> {
    Some(MetaInfo {
        kind: FileKind::Regular,
        mode,
        child_count: 1,
        uid,
        gid,
        size,
        mtime,
    })
}

#[test]
fn empty_directory_prints_a_single_newline() {
    let mut r = Render::init(args(&["prog"]), names(&[])).unwrap();
    r.load_file_info(Vec::new());
    assert_eq!(r.start(), "\n");
}

#[test]
fn hidden_names_are_filtered_without_dash_a() {
    let mut r = Render::init(args(&["prog"]), names(&["a", ".b", "c"])).unwrap();
    r.load_file_info(vec![None, None, None]);
    assert_eq!(r.start(), "a  c\n");
}

#[test]
fn dash_a_shows_every_child() {
    let mut r = Render::init(args(&["prog", "-a"]), names(&["a", ".b", "c"])).unwrap();
    r.load_file_info(vec![None, None, None]);
    assert_eq!(r.start(), "a  .b  c\n");
}

#[test]
fn long_layout_single_regular_file() {
    let mut r = Render::init(args(&["prog", "-l"]), names(&["f"])).unwrap();
    r.load_file_info(vec![regular(0o644, 1000, 1000, 7, 1704164645)]);
    assert_eq!(r.start(), "-rw-r--r-- 1 1000 1000 7 2024-01-02 03:04:05 f\n");
}

#[test]
fn long_layout_aligns_columns_across_entries() {
    let mut r = Render::init(args(&["prog", "-l"]), names(&["f", "g"])).unwrap();
    r.load_file_info(vec![
        regular(0o644, 1000, 1000, 7, 1704164645),
        regular(0o600, 7, 42, 12345, 0),
    ]);
    let out = r.start();
    let expect = "-rw-r--r-- 1 1000 1000     7 2024-01-02 03:04:05 f\n-rw------- 1 7    42   12345 1970-01-01 00:00:00 g\n";
    assert_eq!(out, expect);
}

#[test]
fn time_sort_puts_newest_first() {
    let mut r = Render::init(args(&["prog", "-t"]), names(&["old", "new"])).unwrap();
    r.load_file_info(vec![
        regular(0o644, 0, 0, 1, 100),
        regular(0o644, 0, 0, 1, 200),
    ]);
    assert_eq!(r.start(), "new  old\n");
}

#[test]
fn time_sort_keeps_order_of_equal_mtimes() {
    let mut r = Render::init(args(&["prog", "-t"]), names(&["b", "a", "c"])).unwrap();
    r.load_file_info(vec![
        regular(0o644, 0, 0, 1, 100),
        regular(0o644, 0, 0, 1, 100),
        regular(0o644, 0, 0, 1, 100),
    ]);
    assert_eq!(r.start(), "b  a  c\n");
}

#[test]
fn time_sort_treats_missing_mtimes_as_equal() {
    let mut r = Render::init(args(&["prog", "-t"]), names(&["b", "a"])).unwrap();
    r.load_file_info(vec![None, None]);
    assert_eq!(r.start(), "b  a\n");
}

#[test]
fn human_sizes_under_l_and_h() {
    let mut r = Render::init(args(&["prog", "-lh"]), names(&["a", "b", "c", "d"])).unwrap();
    r.load_file_info(vec![
        regular(0o644, 0, 0, 0, 0),
        regular(0o644, 0, 0, 1024, 0),
        regular(0o644, 0, 0, 1025, 0),
        regular(0o644, 0, 0, 1048576, 0),
    ]);
    let out = r.start();
    let mut expect = String::new();
    expect.push_str("-rw-r--r-- 1 0 0      0B 1970-01-01 00:00:00 a\n");
    expect.push_str("-rw-r--r-- 1 0 0   1024B 1970-01-01 00:00:00 b\n");
    expect.push_str("-rw-r--r-- 1 0 0    1.0K 1970-01-01 00:00:00 c\n");
    expect.push_str("-rw-r--r-- 1 0 0 1024.0K 1970-01-01 00:00:00 d\n");
    assert_eq!(out, expect);
}

#[test]
fn init_rejects_unknown_option_like_the_parser() {
    let e = Render::init(args(&["prog", "-x"]), names(&["a"])).unwrap_err();
    match e {
        Error::SubOption { sub, msg } => {
            assert_eq!(sub, "x");
            assert_eq!(msg, "not support");
        },
        _ => panic!("expected a sub-option error"),
    }
}

#[test]
fn column_width_helpers_pad_on_the_right() {
    let mut r = Render::init(args(&["prog"]), names(&["f"])).unwrap();
    r.load_file_info(vec![regular(0o644, 1000, 4242, 7, 0)]);
    r.extract_max_info_for_entries();
    assert_eq!(r.format_user_name("7".to_string()), "7   ");
    assert_eq!(r.format_group_name("42".to_string()), "42  ");
    assert_eq!(r.format_file_count(1), "1");
}

#[test]
fn directory_child_count_appears_in_long_rows() {
    let mut r = Render::init(args(&["prog", "-l"]), names(&["d"])).unwrap();
    r.load_file_info(vec![Some(MetaInfo {
        kind: FileKind::Directory,
        mode: 0o755,
        child_count: 12,
        uid: 0,
        gid: 0,
        size: 4096,
        mtime: 0,
    })]);
    assert_eq!(r.start(), "drwxr-xr-x 12 0 0 4096 1970-01-01 00:00:00 d\n");
}

#[test]
fn unloaded_entry_renders_defaults_in_long_layout() {
    let mut r = Render::init(args(&["prog", "-l"]), names(&["f"])).unwrap();
    r.load_file_info(vec![None]);
    assert_eq!(r.start(), " 0   0 1970-01-01 00:00:00 f\n");
}

#[test]
fn decimal_rendering_of_bounds() {
    assert_eq!(u64_to_string(0), "0");
    assert_eq!(u64_to_string(10), "10");
    assert_eq!(u64_to_string(18446744073709551615), "18446744073709551615");
}
