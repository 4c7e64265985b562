use dirnav::popup::{format_file_item, format_size, perms_of_mode, FileInfo, ItemStyle};

fn plain_file(name: &str, size: u64, mode: u32) -> FileInfo {
    FileInfo {
        name: name.to_string(),
        is_dir: false,
        is_symlink: false,
        is_file: true,
        link_target: None,
        resolved_is_dir: None,
        size,
        modified: None,
        mode,
    }
}

#[test]
fn sizes_below_one_kilobyte_are_bytes() {
    assert_eq!(format_size(0), "0 B");
    assert_eq!(format_size(1), "1 B");
    assert_eq!(format_size(1023), "1023 B");
}

#[test]
fn sizes_have_one_decimal_at_binary_thresholds() {
    assert_eq!(format_size(1024), "1.0 KB");
    assert_eq!(format_size(1536), "1.5 KB");
    assert_eq!(format_size(2048), "2.0 KB");
    assert_eq!(format_size(1024 * 1024), "1.0 MB");
    assert_eq!(format_size(1024 * 1024 * 1024), "1.0 GB");
    assert_eq!(format_size(1610612736), "1.5 GB");
}

#[test]
fn permission_string_marks_each_set_bit() {
    assert_eq!(perms_of_mode(0o755), "rwxr-xr-x");
    assert_eq!(perms_of_mode(0o644), "rw-r--r--");
    assert_eq!(perms_of_mode(0o000), "---------");
    assert_eq!(perms_of_mode(0o777), "rwxrwxrwx");
}

#[test]
fn popup_lists_executable_and_broken_symlink() {
    let exe = plain_file("tool", 2048, 0o755);
    let broken = FileInfo {
        name: "dangling".to_string(),
        is_dir: false,
        is_symlink: true,
        is_file: false,
        link_target: Some("gone".to_string()),
        resolved_is_dir: None,
        size: 4,
        modified: None,
        mode: 0o777,
    };
    let dir = FileInfo {
        name: "sub".to_string(),
        is_dir: true,
        is_symlink: false,
        is_file: false,
        link_target: None,
        resolved_is_dir: None,
        size: 0,
        modified: None,
        mode: 0o755,
    };
    let r1 = format_file_item(&exe).expect("executable file must get a row");
    let r2 = format_file_item(&broken).expect("broken symlink must get a row");
    assert!(format_file_item(&dir).is_none(), "directories get no popup row");

    assert_eq!(r1.style, ItemStyle::Exec);
    assert!(r1.text.contains("2.0 KB"));
    let nonexec = format_file_item(&plain_file("doc", 2048, 0o644)).unwrap();
    assert_eq!(nonexec.style, ItemStyle::Plain);
    assert_ne!(r1.style, nonexec.style, "executables are styled distinctly");

    assert_eq!(r2.style, ItemStyle::Broken);
    assert!(r2.text.contains("dangling -> ???"));
}

#[test]
fn symlink_to_directory_is_skipped_and_to_file_shows_target() {
    let to_dir = FileInfo {
        name: "d".to_string(),
        is_dir: false,
        is_symlink: true,
        is_file: false,
        link_target: Some("/somewhere".to_string()),
        resolved_is_dir: Some(true),
        size: 1,
        modified: None,
        mode: 0o777,
    };
    assert!(format_file_item(&to_dir).is_none());
    let to_file = FileInfo {
        resolved_is_dir: Some(false),
        ..to_dir
    };
    let row = format_file_item(&to_file).unwrap();
    assert_eq!(row.style, ItemStyle::Link);
    assert!(row.text.contains("d -> /somewhere"));
}

#[test]
fn modification_time_is_rendered_at_minute_precision() {
    let mut info = plain_file("stamped", 10, 0o644);
    info.modified = Some(1700000000);
    let row = format_file_item(&info).unwrap();
    // Layout: 30 name, space, 8 size, space, then the local time "YYYY-MM-DD HH:MM".
    let mtime: String = row.text.chars().skip(40).take(16).collect();
    // 1700000000 is in November 2023 in every time zone.
    assert!(mtime.starts_with("2023-11-1"), "got {mtime:?}");
    assert_eq!(&mtime[4..5], "-");
    assert_eq!(&mtime[13..14], ":");
}

#[test]
fn missing_modification_time_shows_placeholder() {
    let info = plain_file("nostamp", 10, 0o644);
    let row = format_file_item(&info).unwrap();
    let mtime: String = row.text.chars().skip(40).take(3).collect();
    assert_eq!(mtime, "???");
}
