use btdua::fsopen::{btrfs_mounts, is_btrfs, is_top_level, lies_under, mount_source, unescape};
use btdua::session::{is_over, root_hint, sampling_seconds, worker_count};

#[test]
fn unescapes_mountinfo() {
    assert_eq!(unescape(r"/mnt/my\040disk"), "/mnt/my disk");
    assert_eq!(unescape("/plain"), "/plain");
}

#[test]
fn unescapes_at_the_edges() {
    assert_eq!(unescape(r"\134"), r"\");
    assert_eq!(unescape(r"a\04"), r"a\04");
    assert_eq!(unescape(r"a\08b"), r"a\08b");
    assert_eq!(unescape(r"\777"), "?");
    assert_eq!(unescape(r"\303\251"), "\u{e9}");
    assert_eq!(unescape(r"\377x"), "\u{fffd}x");
    assert_eq!(unescape(""), "");
}

const INFO: &str = "22 1 0:20 / / rw shared:1 - btrfs /dev/sda1 rw,subvol=/\n\
    23 22 0:21 / /proc rw - proc proc rw\n\
    24 22 0:22 /x /home rw - btrfs /dev/disk\\040two rw\r\n\
    broken line\n\
    25 22 0:23 / - btrfs\n\
    26 22 0:24 /y /home rw - btrfs /dev/sdc rw";

#[test]
fn lists_btrfs_mounts() {
    let m = btrfs_mounts(INFO);
    let v: Vec<(&str, &str)> = m.iter().map(|m| (m.point.as_str(), m.source.as_str())).collect();
    assert_eq!(v, vec![("/", "/dev/sda1"), ("/home", "/dev/disk two"), ("/home", "/dev/sdc")]);
    assert!(btrfs_mounts("").is_empty());
}

#[test]
fn picks_the_innermost_mount() {
    let m = btrfs_mounts(INFO);
    assert_eq!(mount_source(&m, b"/home/user"), Some("/dev/disk two".into()));
    assert_eq!(mount_source(&m, b"/home"), Some("/dev/disk two".into()));
    assert_eq!(mount_source(&m, b"/homes/user"), Some("/dev/sda1".into()));
    assert_eq!(mount_source(&m[2..].to_vec(), b"/home/x"), Some("/dev/sdc".into()));
    assert_eq!(mount_source(&m[1..].to_vec(), b"/var"), None);
}

#[test]
fn paths_lie_under_whole_components() {
    let paths = [
        "", "/", "a", "/a", "/a/", "/a/b", "/ab", "//a//b", "/a/./b", "./a", ".", "/.", "a/.", "..",
        "/a/..", "a/b", "./",
    ];
    for path in paths {
        for point in paths {
            let expected = std::path::Path::new(path).starts_with(point);
            assert_eq!(lies_under(path.as_bytes(), point.as_bytes()), expected);
        }
    }
    assert!(lies_under(b"/\xff/x", b"/\xff") && !lies_under(b"/\xffx", b"/\xff"));
}

#[test]
fn knows_the_top_level() {
    assert!(is_btrfs(0x9123_683E) && !is_btrfs(0xEF53));
    assert!(is_top_level(5, 256));
    assert!(!is_top_level(256, 256) && !is_top_level(5, 257));
}

#[test]
fn sampling_ends_as_asked() {
    assert_eq!(sampling_seconds(None, None), Some(10));
    assert_eq!(sampling_seconds(None, Some(5)), None);
    assert_eq!(sampling_seconds(Some(3), Some(5)), Some(3));
    assert!(is_over(Some(5), 5, false) && !is_over(Some(5), 4, false));
    assert!(is_over(None, 0, true) && !is_over(None, 99, false));
    assert_eq!(worker_count(None, Some(8)), 8);
    assert_eq!(worker_count(None, None), 4);
    assert_eq!(worker_count(Some(0), Some(8)), 1);
    assert_eq!(worker_count(Some(3), Some(8)), 3);
}

#[test]
fn permission_errors_have_a_hint() {
    assert!(root_hint(Some(libc::EPERM), "x").contains("--import FILE"));
    assert!(root_hint(Some(libc::EACCES), "x").starts_with("permission denied"));
    assert_eq!(root_hint(Some(libc::EIO), "x"), "x");
    assert_eq!(root_hint(None, "y"), "y");
}
