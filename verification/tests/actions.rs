use btdua::actions::Survey;
use btdua::app::{App, Dialog};
use btdua::btrfs::ops::FileExtent;
use btdua::tree::{Sample, Tree};

fn at(kind: u8, bytenr: u64, disk: u64, ram: u64, num: u64) -> FileExtent {
    FileExtent {
        file_offset: 0,
        kind,
        compression: 0,
        ram_bytes: ram,
        disk_bytenr: bytenr,
        disk_num_bytes: disk,
        num_bytes: num,
    }
}

#[test]
fn shared_extents_are_measured_once() {
    let mut s = Survey::new();
    s.add_file(&vec![at(1, 4096, 10, 40, 30), at(1, 8192, 5, 5, 5)]);
    s.add_file(&vec![at(1, 4096, 10, 40, 8), at(1, 0, 0, 100, 100), at(2, 12288, 7, 7, 7)]);
    s.add_file(&vec![at(0, 0, 0, 20, 20), at(0, 0, 0, 21, 21)]);
    s.add_file(&vec![]);
    let e = s.exact();
    assert_eq!(e.disk, 10 + 5 + 7);
    assert_eq!(e.uncompressed, 40 + 5 + 7 + 20 + 21);
    assert_eq!(e.referenced, 30 + 5 + 8 + 7 + 20 + 21);
    assert_eq!(e.files, 4);
}

#[test]
fn measurements_saturate() {
    let mut s = Survey::new();
    s.add_file(&vec![at(1, 1, u64::MAX, 1, u64::MAX), at(1, 2, 5, 1, 5)]);
    let e = s.exact();
    assert_eq!((e.disk, e.uncompressed, e.referenced, e.files), (u64::MAX, 2, u64::MAX, 1));
    assert_eq!(Survey::new().exact().files, 0);
}

#[test]
fn failures_are_collected_while_the_rest_goes_on() {
    let mut t = Tree::new();
    for p in ["a/x", "b"] {
        t.add_sample(&Sample { owners: vec![p.into()], ..Default::default() });
    }
    let (x, b) = (t.find("a/x").unwrap(), t.find("b").unwrap());
    let mut app = App::new(true);
    app.deletion_started(2);
    assert_eq!(app.deleting, 2);
    app.deletion_done(&mut t, x, Some("EIO".into()));
    app.show_failures();
    assert!(matches!(app.dialog, Dialog::Closed));
    assert!(t.is_live(x));
    app.deletion_done(&mut t, b, None);
    assert!(!t.is_live(b));
    app.dialog = Dialog::Help;
    app.show_failures();
    assert!(matches!(app.dialog, Dialog::Help));
    app.dialog = Dialog::Closed;
    app.show_failures();
    assert!(matches!(&app.dialog, Dialog::Message { text, .. } if text == "/a/x: EIO"));
    app.dialog = Dialog::Closed;
    app.show_failures();
    assert!(matches!(app.dialog, Dialog::Closed));
}
