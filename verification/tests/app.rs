use btdua::actions::Exact;
use btdua::app::{Action, App, Command, Dialog, ExactState, KeyCode, Mode, SortBy};
use btdua::tree::{Sample, Tree, ROOT};

fn tree() -> Tree {
    let mut t = Tree::new();
    for p in ["a/x", "a/y", "a/y", "b/z"] {
        t.add_sample(&Sample { owners: vec![p.into()], ..Default::default() });
    }
    t
}

fn press(app: &mut App, c: KeyCode, t: &Tree) -> Action {
    app.on_key(c, t, 0)
}

#[test]
fn cursor_follows_node_across_resort() {
    let t = tree();
    let mut app = App::new(true);
    press(&mut app, KeyCode::Down, &t);
    let b = t.find("b").unwrap();
    assert_eq!(app.current(&t), Some(b));
    press(&mut app, KeyCode::Char('n'), &t);
    press(&mut app, KeyCode::Char('r'), &t); // name, reversed: b first
    assert_eq!(app.current(&t), Some(b));
}

#[test]
fn enter_and_leave_directory() {
    let t = tree();
    let mut app = App::new(true);
    press(&mut app, KeyCode::Enter, &t);
    assert_eq!(app.dir, t.find("a").unwrap());
    assert_eq!(app.current(&t), t.find("a/y"));
    press(&mut app, KeyCode::Left, &t);
    assert_eq!(app.dir, ROOT);
    assert_eq!(app.current(&t), t.find("a"));
}

#[test]
fn batch_delete_dedupes_nested_targets() {
    let t = tree();
    let a = t.find("a").unwrap();
    let mut app = App::new(true);
    press(&mut app, KeyCode::Char(' '), &t); // mark a, cursor -> b
    press(&mut app, KeyCode::Up, &t);
    press(&mut app, KeyCode::Enter, &t);
    press(&mut app, KeyCode::Char(' '), &t); // mark a/y
    press(&mut app, KeyCode::Left, &t);
    assert_eq!(app.marks.len(), 2);
    press(&mut app, KeyCode::Char('d'), &t);
    assert!(matches!(&app.dialog, Dialog::Confirm { targets, stage: 1 } if targets == &vec![a]));
    assert_eq!(press(&mut app, KeyCode::Char('y'), &t), Action::Delete(vec![a]));
    assert!(!app.marks.contains(&a));
}

#[test]
fn subvolume_delete_needs_two_confirmations() {
    let mut t = Tree::new();
    t.add_sample(&Sample { owners: vec!["s/f".into()], subvols: vec!["s".into()], ratio: None });
    let s = t.find("s").unwrap();
    let mut app = App::new(true);
    press(&mut app, KeyCode::Char('d'), &t);
    assert_eq!(press(&mut app, KeyCode::Char('y'), &t), Action::Nothing);
    assert!(matches!(app.dialog, Dialog::Confirm { stage: 2, .. }));
    assert_eq!(press(&mut app, KeyCode::Char('y'), &t), Action::Delete(vec![s]));
}

#[test]
fn exact_size_is_refused_for_buckets() {
    let mut t = Tree::new();
    t.add_sample(&Sample::bucket("<UNUSED>"));
    let mut app = App::new(true);
    press(&mut app, KeyCode::Char('i'), &t);
    assert_eq!(press(&mut app, KeyCode::Char('x'), &t), Action::Nothing);
    assert!(matches!(app.dialog, Dialog::Message { .. }));
}

#[test]
fn cursor_survives_removal() {
    let mut t = tree();
    let mut app = App::new(true);
    press(&mut app, KeyCode::Down, &t);
    t.remove(t.find("b").unwrap());
    assert_eq!(app.current(&t), t.find("a"));
}

#[test]
fn buckets_cannot_be_deleted_and_import_mode_blocks_delete() {
    let mut t = Tree::new();
    t.add_sample(&Sample::bucket("<METADATA>"));
    let mut app = App::new(true);
    press(&mut app, KeyCode::Char('d'), &t);
    assert!(matches!(app.dialog, Dialog::Closed));
    let t = tree();
    let mut app = App::new(false);
    press(&mut app, KeyCode::Char('d'), &t);
    assert!(matches!(app.dialog, Dialog::Message { .. }));
}

#[test]
fn modes_cycle_and_have_labels() {
    let labels: Vec<&str> = Mode::ALL.iter().map(|m| m.label()).collect();
    assert_eq!(labels, vec!["represented", "distributed", "exclusive", "shared"]);
    for (i, m) in Mode::ALL.iter().enumerate() {
        assert_eq!(m.next(), Mode::ALL[(i + 1) % 4]);
    }
}

#[test]
fn entries_are_sorted_as_asked() {
    let t = tree();
    let id = |p: &str| t.find(p).unwrap();
    let mut app = App::new(true);
    assert_eq!(app.entries(&t), vec![id("a"), id("b")]);
    press(&mut app, KeyCode::Char('n'), &t);
    assert_eq!(app.sort, SortBy::Name);
    assert_eq!(app.entries(&t), vec![id("a"), id("b")]);
    press(&mut app, KeyCode::Char('n'), &t);
    assert!(app.reverse);
    assert_eq!(app.entries(&t), vec![id("b"), id("a")]);
    press(&mut app, KeyCode::Char('C'), &t);
    assert!(!app.reverse);
    app.dir = id("a");
    assert_eq!(app.entries(&t), vec![id("a/y"), id("a/x")]);
    app.mode = Mode::Shared;
    app.sort = SortBy::Size;
    assert_eq!(app.entries(&t), vec![id("a/x"), id("a/y")]);
}

#[test]
fn distributed_sizes_are_compared_exactly() {
    let mut t = Tree::new();
    for _ in 0..3 {
        t.add_sample(&Sample {
            owners: vec!["p".into(), "q".into(), "r".into()],
            ..Default::default()
        });
    }
    t.add_sample(&Sample { owners: vec!["o".into()], ..Default::default() });
    let mut app = App::new(true);
    app.mode = Mode::Distributed;
    // Three thirds are as much as one: ties go by name.
    let names: Vec<String> =
        app.entries(&t).iter().map(|&k| t.node(k).name.clone()).collect();
    assert_eq!(names, vec!["o", "p", "q", "r"]);
}

#[test]
fn moves_stop_at_the_ends() {
    let t = tree();
    let (a, b) = (t.find("a"), t.find("b"));
    let mut app = App::new(true);
    press(&mut app, KeyCode::Up, &t);
    assert_eq!(app.current(&t), a);
    press(&mut app, KeyCode::PageDown, &t);
    assert_eq!(app.current(&t), b);
    press(&mut app, KeyCode::Char('j'), &t);
    assert_eq!(app.current(&t), b);
    press(&mut app, KeyCode::PageUp, &t);
    assert_eq!(app.current(&t), a);
    app.page = usize::MAX;
    press(&mut app, KeyCode::PageDown, &t);
    assert_eq!(app.current(&t), b);
    app.page = 0;
    press(&mut app, KeyCode::PageUp, &t);
    assert_eq!(app.current(&t), a);
    press(&mut app, KeyCode::Char('G'), &t);
    assert_eq!(app.current(&t), b);
    press(&mut app, KeyCode::Home, &t);
    assert_eq!(app.current(&t), a);
}

#[test]
fn marks_are_kept_and_cleared() {
    let t = tree();
    let mut app = App::new(true);
    press(&mut app, KeyCode::Char(' '), &t);
    press(&mut app, KeyCode::Enter, &t); // b: has z
    press(&mut app, KeyCode::Char('m'), &t);
    assert_eq!(app.marks.len(), 1);
    press(&mut app, KeyCode::Char('u'), &t);
    assert!(app.marks.is_empty());
    let mut t = Tree::new();
    t.add_sample(&Sample::bucket("<METADATA>"));
    let mut app = App::new(true);
    press(&mut app, KeyCode::Char(' '), &t);
    assert!(app.marks.is_empty());
}

#[test]
fn pause_needs_a_live_filesystem() {
    let t = tree();
    let mut app = App::new(true);
    assert_eq!(press(&mut app, KeyCode::Char('p'), &t), Action::TogglePause);
    assert!(app.paused);
    let mut app = App::new(false);
    assert_eq!(press(&mut app, KeyCode::Char('p'), &t), Action::Nothing);
    assert!(!app.paused);
}

#[test]
fn export_is_named_and_edited() {
    let t = tree();
    let mut app = App::new(false);
    app.on_key(KeyCode::Char('e'), &t, 1700000000);
    assert!(matches!(&app.dialog, Dialog::Export { input } if input == "btdua-1700000000.json"));
    for _ in 0.."btdua-1700000000.json".len() {
        press(&mut app, KeyCode::Backspace, &t);
    }
    press(&mut app, KeyCode::Backspace, &t);
    assert_eq!(press(&mut app, KeyCode::Enter, &t), Action::Nothing);
    assert!(matches!(&app.dialog, Dialog::Export { input } if input.is_empty()));
    press(&mut app, KeyCode::Char('x'), &t);
    press(&mut app, KeyCode::Up, &t);
    assert_eq!(press(&mut app, KeyCode::Enter, &t), Action::Export("x".into()));
    assert!(matches!(app.dialog, Dialog::Closed));
    app.on_key(KeyCode::Char('e'), &t, 0);
    assert_eq!(press(&mut app, KeyCode::Esc, &t), Action::Nothing);
    assert!(matches!(app.dialog, Dialog::Closed));
}

#[test]
fn info_offers_the_exact_size() {
    let t = tree();
    let a = t.find("a").unwrap();
    let mut app = App::new(true);
    press(&mut app, KeyCode::Char('i'), &t);
    assert!(matches!(app.dialog, Dialog::Info { node } if node == a));
    assert_eq!(press(&mut app, KeyCode::Down, &t), Action::Nothing);
    assert!(matches!(app.dialog, Dialog::Info { .. }));
    assert_eq!(press(&mut app, KeyCode::Char('x'), &t), Action::Exact(a));
    app.exact.insert(a, ExactState::Done(Exact::default()));
    press(&mut app, KeyCode::Esc, &t);
    assert!(matches!(app.dialog, Dialog::Closed));
    let mut app = App::new(false);
    press(&mut app, KeyCode::Char('i'), &t);
    assert_eq!(press(&mut app, KeyCode::Char('x'), &t), Action::Nothing);
    assert!(matches!(app.dialog, Dialog::Message { .. }));
}

#[test]
fn other_keys_cancel_a_deletion() {
    let t = tree();
    let mut app = App::new(true);
    press(&mut app, KeyCode::Char('d'), &t);
    assert_eq!(press(&mut app, KeyCode::Char('n'), &t), Action::Nothing);
    assert!(matches!(app.dialog, Dialog::Closed));
    press(&mut app, KeyCode::Char('?'), &t);
    assert!(matches!(app.dialog, Dialog::Help));
    press(&mut app, KeyCode::Char('q'), &t);
    assert!(matches!(app.dialog, Dialog::Closed));
    assert_eq!(press(&mut app, KeyCode::Char('q'), &t), Action::Quit);
}

#[test]
fn keys_stand_for_commands() {
    assert_eq!(KeyCode::Char('h').command(), Command::Leave);
    assert_eq!(KeyCode::Backspace.command(), Command::Leave);
    assert_eq!(KeyCode::Char('C').command(), Command::Sort(SortBy::Count));
    assert_eq!(KeyCode::Char('c').command(), Command::Columns);
    assert_eq!(KeyCode::Char('Z').command(), Command::Nothing);
    assert_eq!(KeyCode::Esc.command(), Command::Nothing);
}
