use btdua::actions::Exact;
use btdua::app::{App, Dialog, ExactState, KeyCode, Mode};
use btdua::export::Meta;
use btdua::tree::{Ratio, Sample, Tree};
use btdua::ui::dialogs::{
    confirm_lines, dialog, export_lines, help_lines, info_lines, message_lines, popup, popup_area,
    Area, DialogFigures, InfoFigures, Popup,
};
use btdua::ui::screen::{
    bar, empty_note, exclusive_of, footer, header, marked_exclusive, marks_line, mode_line, row,
    rows_in, table, Figures, Width,
};
use btdua::ui::{Color, Line, Style};

fn text(l: &Line) -> String {
    l.spans.iter().map(|s| s.text.as_str()).collect()
}

fn tree() -> Tree {
    let mut t = Tree::new();
    t.add_sample(&Sample {
        owners: vec!["a/b".into(), "s/c".into()],
        subvols: vec!["s".into()],
        ratio: Some(Ratio { ram: 2, disk: 1 }),
    });
    t.add_sample(&Sample::bucket("<METADATA>"));
    t
}

fn figures() -> Figures {
    Figures { size: 1536, exclusive: 0, shared: 3 << 30, ratio: Some("0.50".into()), eighths: 20 }
}

fn info() -> InfoFigures {
    InfoFigures { ratio: None, sizes: [1, 2, 3, 1 << 20], errors: [0, 0, 0, 2048] }
}

#[test]
fn bars_fill_by_eighths() {
    assert_eq!(bar(0), format!("[{}]", " ".repeat(20)));
    assert_eq!(bar(160), format!("[{}]", "█".repeat(20)));
    assert_eq!(bar(12), format!("[█▌{}]", " ".repeat(18)));
    assert_eq!(bar(159), format!("[{}▉]", "█".repeat(19)));
    for e in 0..=160 {
        assert_eq!(bar(e).chars().count(), 22);
    }
}

#[test]
fn first_line_says_where_and_what() {
    let t = tree();
    let meta = Meta { device: "/dev/sda1".into(), ..Default::default() };
    let mut app = App::new(true);
    let h = header(&app, &t, &meta, "0.4");
    assert_eq!(text(&h.left), " btdua   /dev/sda1");
    assert_eq!(text(&h.right), "samples 2  ±0.4%  ● sampling ");
    assert!(h.left.spans[0].style.bold && h.left.spans[0].style.reversed);
    app.dir = t.find("a/b").unwrap();
    app.paused = true;
    let h = header(&app, &t, &meta, "0.0");
    assert_eq!(text(&h.left), " btdua   /dev/sda1 ▸ a ▸ b");
    assert_eq!(h.right.spans[1].text, "‖ paused");
    app.deleting = 3;
    assert_eq!(header(&app, &t, &meta, "").right.spans[1].text, "✖ deleting 3");
    app.live = false;
    assert_eq!(header(&app, &t, &meta, "").right.spans[1].style.fg, Some(Color::Cyan));
}

#[test]
fn second_line_shows_sorting_and_modes() {
    let t = tree();
    let mut app = App::new(true);
    app.mode = Mode::Exclusive;
    let l = mode_line(&app);
    assert_eq!(text(&l), " Sort: size ↓   Mode: represented distributed [exclusive] shared");
    app.on_key(KeyCode::Char('C'), &t, 0);
    app.on_key(KeyCode::Char('r'), &t, 0);
    assert!(text(&mode_line(&app)).starts_with(" Sort: samples ↑ "));
    assert!(marks_line(&app, 0).is_none());
    app.marks.insert(t.find("a").unwrap());
    app.marks.insert(t.find("<METADATA>").unwrap());
    assert_eq!(marked_exclusive(&app, &t), 1);
    assert_eq!(text(&marks_line(&app, 1024).unwrap()), "2 marked · 1.0 KiB excl ");
    assert_eq!(exclusive_of(&t, &vec![0, 0]), 4);
}

#[test]
fn rows_show_an_entry() {
    let t = tree();
    let mut app = App::new(true);
    let s = t.find("s").unwrap();
    let r = row(&app, &t, s, &figures());
    let cells: Vec<String> = r.cells.iter().map(text).collect();
    assert_eq!(cells[0], "   1.5 KiB");
    assert_eq!(cells[1], "       0 B");
    assert_eq!(cells[2], "   3.0 GiB");
    assert_eq!(cells[3], " 0.50");
    assert_eq!(cells[5], "          0");
    assert_eq!(cells[6], "  s/  ⊞subvol");
    assert_eq!(r.style, Style::new());
    app.show_optional = false;
    app.marks.insert(s);
    let r = row(&app, &t, s, &figures());
    assert_eq!(r.cells.len(), 4);
    assert_eq!(text(&r.cells[3]), "* s/  ⊞subvol");
    assert_eq!(r.style, Style::new().fg(Color::Yellow).bold());
    let m = t.find("<METADATA>").unwrap();
    let none = Figures { ratio: None, ..figures() };
    app.show_optional = true;
    let r = row(&app, &t, m, &none);
    assert_eq!(text(&r.cells[3]), "    -");
    assert_eq!(text(&r.cells[6]), "  <METADATA>");
    assert_eq!(r.style, Style::new().fg(Color::Magenta));
}

#[test]
fn table_has_a_row_for_every_entry() {
    let t = tree();
    let mut app = App::new(true);
    app.on_key(KeyCode::Down, &t, 0);
    let e = app.entries(&t);
    let f: Vec<Figures> = e.iter().map(|_| figures()).collect();
    let v = table(&app, &t, &e, &f);
    assert_eq!(v.rows.len(), 3);
    assert_eq!(v.selected, Some(1));
    assert_eq!(v.titles.len(), v.widths.len());
    assert_eq!(v.titles[3], "Ratio");
    assert_eq!(v.widths[6], Width::Min(10));
    assert_eq!(v.rows[0].cells.len(), 7);
    app.dir = t.find("a/b").unwrap();
    let v = table(&app, &t, &vec![], &vec![]);
    assert_eq!(v.selected, None);
    assert!(empty_note(0, 2).is_some() && empty_note(0, 1).is_none() && empty_note(1, 9).is_none());
    assert_eq!((rows_in(0), rows_in(1), rows_in(25)), (0, 0, 24));
}

#[test]
fn last_line_sums_up() {
    let f = footer(1024, 0, 512, 1 << 40);
    assert_eq!(text(&f.left), " Total 1.0 KiB · Excl 0 B · Shared 512 B · Disk 1.0 TiB");
    assert!(f.right.spans[0].style.reversed);
}

#[test]
fn help_lists_keys_and_modes() {
    let h = help_lines();
    assert_eq!(h.len(), 18);
    assert_eq!(text(&h[4]), "                     r  reverse sort");
    assert_eq!(text(&h[13]), "");
    assert_eq!(h[14].spans[0].style, Style::new().fg(Color::Cyan));
    assert_eq!(text(&h[17]), "                shared  space this entry shares with paths outside it");
}

#[test]
fn info_tells_all_about_an_entry() {
    let t = tree();
    let mut app = App::new(true);
    let b = t.find("a/b").unwrap();
    let l: Vec<String> = info_lines(&app, &t, b, &info()).iter().map(text).collect();
    assert_eq!(l[0], "Path:        /a/b");
    assert_eq!(l[1], "Subvolume:   no");
    assert_eq!(l[2], "Samples:     1");
    assert_eq!(l[3], "Compression: -");
    assert_eq!(l[5], " represented         1 B  ± 0 B");
    assert_eq!(l[8], "      shared     1.0 MiB  ± 2.0 KiB");
    assert_eq!(l[10], "Shares extents with:");
    assert_eq!(l[11], "  /s/c");
    assert_eq!(l[13], "Exact size: press x to compute");
    app.exact.insert(b, ExactState::Running);
    assert_eq!(text(info_lines(&app, &t, b, &info()).last().unwrap()), "Exact size: computing…");
    app.exact.insert(b, ExactState::Failed("EIO".into()));
    assert_eq!(text(info_lines(&app, &t, b, &info()).last().unwrap()), "Exact size failed: EIO");
    app.exact.insert(
        b,
        ExactState::Done(Exact { disk: 1024, uncompressed: 2048, referenced: 5, files: 1234 }),
    );
    assert_eq!(
        text(info_lines(&app, &t, b, &info()).last().unwrap()),
        "Exact: disk 1.0 KiB · uncompressed 2.0 KiB · referenced 5 B · 1,234 files"
    );
    let s = t.find("s").unwrap();
    let known = InfoFigures { ratio: Some("0.50".into()), ..info() };
    let l: Vec<String> =
        info_lines(&App::new(false), &t, s, &known).iter().map(text).collect();
    assert_eq!(l[1], "Subvolume:   yes (root)");
    assert_eq!(l[3], "Compression: 0.50 (disk / uncompressed)");
    assert_eq!(l.last().unwrap(), "Exact size: unavailable in --import mode");
}

#[test]
fn confirmations_list_up_to_ten() {
    let mut t = tree();
    let mut ids = Vec::new();
    for i in 0..12 {
        ids.push(t.get_or_create(&format!("d/{i:02}")));
    }
    let l: Vec<String> = confirm_lines(&t, &ids, 1, 1 << 20).iter().map(text).collect();
    assert_eq!(l[0], "Delete 12 item(s)? About 1.0 MiB would be freed (exclusive estimate).");
    assert_eq!(l[2], "  /d/00");
    assert_eq!(l[11], "  /d/09");
    assert_eq!(l[12], "  … and 2 more");
    assert_eq!(l[14], "[y] delete   [any other key] cancel");
    let s = t.find("s").unwrap();
    let l = confirm_lines(&t, &vec![s, ids[0]], 2, 0);
    assert_eq!(l.len(), 7);
    assert_eq!(
        text(&l[5]),
        "⚠ 1 target(s) are or contain btrfs subvolumes; they will be destroyed."
    );
    assert_eq!(l[5].spans[0].style, Style::new().fg(Color::Red).bold());
    assert_eq!(text(&l[6]), "Press y again to confirm, any other key to cancel.");
}

#[test]
fn questions_and_messages() {
    let e: Vec<String> = export_lines("x.json").iter().map(text).collect();
    assert_eq!(e, vec!["File: x.json█", "", "Enter: save   Esc: cancel"]);
    let m: Vec<String> = message_lines("one\n\ntwo\r\nthree\n").iter().map(text).collect();
    assert_eq!(m, vec!["one", "", "two", "three"]);
    assert!(message_lines("").is_empty());
}

#[test]
fn renders_at_all_sizes() {
    let t = tree();
    let meta = Meta { total_bytes: 1 << 30, disk_bytes: 1 << 31, ..Default::default() };
    let a = t.find("a").unwrap();
    for (w, h) in [(10, 3), (40, 8), (140, 40)] {
        let area = Area { x: 0, y: 0, width: w, height: h };
        let mut app = App::new(true);
        app.marks.insert(a);
        let dialogs = [
            Dialog::Closed,
            Dialog::Help,
            Dialog::Info { node: t.find("a/b").unwrap() },
            Dialog::Confirm { targets: vec![a], stage: 2 },
            Dialog::Export { input: "x.json".into() },
            Dialog::message("t", "line1\nline2"),
        ];
        for d in dialogs {
            app.dialog = d;
            draws(&mut app, &t, &meta, area);
        }
        app.dialog = Dialog::Closed;
        app.dir = t.find("a/b").unwrap(); // empty directory
        draws(&mut app, &t, &meta, area);
    }
}

/// Lays out everything that stands on the screen.
fn draws(app: &mut App, t: &Tree, meta: &Meta, area: Area) {
    header(app, t, meta, "0.0");
    mode_line(app);
    marks_line(app, marked_exclusive(app, t) as u64);
    let e = app.entries(t);
    let f: Vec<Figures> = e.iter().map(|_| figures()).collect();
    assert_eq!(table(app, t, &e, &f).rows.len(), e.len());
    app.page = rows_in(area.height);
    empty_note(e.len(), area.height);
    footer(0, 0, 0, meta.disk_bytes);
    if let Some(p) = dialog(app, t, &DialogFigures { info: info(), freed: 0 }) {
        let r = popup(area, &p);
        assert!(r.x + r.width <= area.width && r.y + r.height <= area.height);
    }
}

#[test]
fn dialogs_have_titles_and_borders() {
    let t = tree();
    let a = t.find("a").unwrap();
    let f = DialogFigures { info: info(), freed: 0 };
    let mut app = App::new(true);
    assert!(dialog(&app, &t, &f).is_none());
    let all = [
        (Dialog::Help, "Help", 76, Color::Cyan),
        (Dialog::Info { node: a }, "Info", 80, Color::Cyan),
        (Dialog::Confirm { targets: vec![a], stage: 2 }, "Confirm delete", 80, Color::Red),
        (Dialog::Export { input: "x.json".into() }, "Export", 70, Color::Cyan),
        (Dialog::message("t", "line1\nline2"), "t", 80, Color::Yellow),
    ];
    for (d, title, width, border) in all {
        app.dialog = d;
        let p = dialog(&app, &t, &f).unwrap();
        assert_eq!((p.title.as_str(), p.width, p.border), (title, width, border));
        for (w, h) in [(10, 3), (40, 8), (140, 40)] {
            let area = Area { x: 0, y: 0, width: w, height: h };
            let r = popup(area, &p);
            assert!(r.x + r.width <= w && r.y + r.height <= h);
        }
    }
}

#[test]
fn boxes_are_centered_and_as_high_as_their_text() {
    let area = Area { x: 2, y: 1, width: 100, height: 30 };
    let r = popup_area(area, &vec![0, 10, 78, 79], 80);
    assert_eq!(r, Area { x: 12, y: 12, width: 80, height: 7 });
    let narrow = Area { x: 0, y: 0, width: 4, height: 100 };
    assert_eq!(popup_area(narrow, &vec![5], 80).height, 5);
    assert_eq!(popup_area(Area { width: 1, ..narrow }, &vec![3], 80).height, 5);
    assert_eq!(popup_area(Area { height: 3, ..area }, &vec![9, 9, 9], 80).height, 3);
}

#[test]
fn wide_characters_take_two_columns() {
    let area = Area { x: 0, y: 0, width: 12, height: 20 };
    let one = |s: &str| Popup {
        title: String::new(),
        lines: vec![Line::raw(s.into())],
        width: 12,
        border: Color::Cyan,
    };
    assert_eq!(popup(area, &one("0123456789")).height, 3);
    assert_eq!(popup(area, &one("\u{5927}\u{5927}\u{5927}\u{5927}\u{5927}")).height, 3);
    assert_eq!(popup(area, &one("\u{5927}\u{5927}\u{5927}\u{5927}\u{5927}\u{5927}")).height, 4);
}

#[test]
fn line_ends_part_a_line() {
    for s in ["", "plain", "a\nb", "x\r\ny\n", "\n", "\n\nz", "r\r", "a\rb"] {
        let ours = Line::styled(s.into(), Style::new().bold());
        let spans: Vec<&str> = ours.spans.iter().map(|s| s.text.as_str()).collect();
        let theirs = ratatui::text::Line::raw(s);
        let expected: Vec<&str> = theirs.spans.iter().map(|s| s.content.as_ref()).collect();
        assert_eq!(spans, expected);
        assert!(ours.spans.iter().all(|s| s.style.bold));
        assert_eq!(Line::raw(s.into()).spans.len(), expected.len());
    }
    let mut t = Tree::new();
    let id = t.get_or_create("a\nb");
    let l = info_lines(&App::new(true), &t, id, &info());
    let spans: Vec<&str> = l[0].spans.iter().map(|s| s.text.as_str()).collect();
    assert_eq!(spans, vec!["Path:        /a", "b"]);
}
