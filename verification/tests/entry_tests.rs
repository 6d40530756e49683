use lister::entry::{permission_string, Entry, FileKind, MetaInfo};

fn meta(kind: FileKind, mode: u32, size: u64, mtime: i64) -> MetaInfo {
    MetaInfo {
        kind,
        mode,
        child_count: 1,
        uid: 1000,
        gid: 1000,
        size,
        mtime,
    }
}

#[test]
fn new_entry_hides_dot_names() {
    let e = Entry::new(".config".to_string());
    assert!(!e.display);
    let e = Entry::new("plain".to_string());
    assert!(e.display);
    let e = Entry::new(String::new());
    assert!(e.display);
    assert_eq!(e.file_name, "");
}

#[test]
fn cur_and_parent_entries() {
    let c = Entry::from_cur();
    assert_eq!(c.file_name, ".");
    assert!(c.display);
    assert!(c.is_cur);
    let p = Entry::from_parent();
    assert_eq!(p.file_name, "..");
    assert!(p.display);
    assert!(!p.is_cur);
}

#[test]
fn permission_string_regular_644() {
    assert_eq!(permission_string(FileKind::Regular, 0o644), "-rw-r--r--");
}

#[test]
fn permission_string_directory_755() {
    assert_eq!(permission_string(FileKind::Directory, 0o755), "drwxr-xr-x");
}

#[test]
fn permission_string_full_mode_bits() {
    // the low nine bits of a full st_mode are used, type bits ignored
    assert_eq!(permission_string(FileKind::Regular, 0o100600), "-rw-------");
    assert_eq!(permission_string(FileKind::Symlink, 0o120777), "lrwxrwxrwx");
}

#[test]
fn permission_string_small_mode_renders_dashes() {
    // fewer than nine binary digits: the permission part defaults to dashes
    assert_eq!(permission_string(FileKind::Regular, 0o77), "----------");
    assert_eq!(permission_string(FileKind::Socket, 0), "s---------");
}

#[test]
fn load_info_fills_all_derived_fields() {
    let mut e = Entry::new("f".to_string());
    e.load_info(Some(meta(FileKind::Regular, 0o644, 7, 100)));
    assert_eq!(e.file_permission, "-rw-r--r--");
    assert_eq!(e.files_number, 1);
    assert_eq!(e.user_name, "1000");
    assert_eq!(e.group_name, "1000");
    assert_eq!(e.size, 7);
    assert_eq!(e.update_time, 100);
    assert!(e.has_mtime);
    assert_eq!(e.get_modified_time(), Some(100));
}

#[test]
fn load_info_counts_directory_children() {
    let mut e = Entry::new("d".to_string());
    let mut m = meta(FileKind::Directory, 0o755, 4096, 0);
    m.child_count = 17;
    e.load_info(Some(m));
    assert_eq!(e.files_number, 17);
}

#[test]
fn load_info_none_leaves_defaults() {
    let mut e = Entry::new("f".to_string());
    e.load_info(None);
    assert_eq!(e.file_permission, "");
    assert_eq!(e.files_number, 0);
    assert_eq!(e.size, 0);
    assert!(!e.has_mtime);
    assert_eq!(e.get_modified_time(), None);
}

#[test]
fn permission_length_is_zero_or_ten() {
    let mut a = Entry::new("f".to_string());
    a.load_info(None);
    assert_eq!(a.file_permission.len(), 0);
    let mut b = Entry::new("f".to_string());
    b.load_info(Some(meta(FileKind::Fifo, 0o222, 0, 0)));
    assert_eq!(b.file_permission.len(), 10);
}

#[test]
fn out_of_range_mtime_falls_back_to_epoch() {
    let mut e = Entry::new("f".to_string());
    e.load_info(Some(meta(FileKind::Regular, 0o644, 1, i64::MAX)));
    assert_eq!(e.update_time, 0);
    assert!(e.has_mtime);
}

#[test]
fn human_sizes_match_the_strict_threshold() {
    let cases: [(u64, &str); 8] = [
        (0, "0B"),
        (1, "1B"),
        (1023, "1023B"),
        (1024, "1024B"),
        (1025, "1.0K"),
        (1048576, "1024.0K"),
        (1048577, "1.0M"),
        (1099511627777, "1.0T"),
    ];
    for (size, expect) in cases {
        let mut e = Entry::new("f".to_string());
        e.size = size;
        e.format_entry_size();
        assert_eq!(e.size_format, expect, "size {}", size);
    }
}

#[test]
fn human_size_rounds_its_single_decimal() {
    let mut e = Entry::new("f".to_string());
    e.size = 1536;
    e.format_entry_size();
    assert_eq!(e.size_format, "1.5K");
    e.size = 10 * 1024 * 1024;
    e.format_entry_size();
    assert_eq!(e.size_format, "10.0M");
}

#[test]
fn size_display_pads_on_the_left() {
    let mut e = Entry::new("f".to_string());
    e.size = 7;
    assert_eq!(e.get_file_size_display(0, 5), "    7");
    e.size_format = "4.0K".to_string();
    assert_eq!(e.get_file_size_display(6, 5), "  4.0K");
    // a width smaller than the value adds no padding
    assert_eq!(e.get_file_size_display(2, 5), "4.0K");
    assert_eq!(e.get_file_size_display(-3, 5), "4.0K");
}
