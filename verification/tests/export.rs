use btdua::export::{from_json, restore, to_json, JNode, Meta};
use btdua::tree::{Counters, Ratio, Sample, Tree, ROOT};

#[test]
fn round_trips() {
    let mut t = Tree::new();
    t.add_sample(&Sample {
        owners: vec!["s/a".into(), "b".into()],
        subvols: vec!["s".into()],
        ratio: Some(Ratio { ram: 2, disk: 1 }),
    });
    t.add_sample(&Sample::bucket("<METADATA>"));
    let meta = Meta { version: 1, samples: t.total_samples, total_bytes: 100, ..Default::default() };
    let saved = to_json(&t, ROOT);
    let t2 = restore(meta.samples, &saved).unwrap();
    assert_eq!(meta.samples, 2);
    assert_eq!(t2.total_samples, 2);
    let a = t2.find("s/a").unwrap();
    assert!(t2.node(a).c == t.node(t.find("s/a").unwrap()).c);
    assert!(t2.node(t2.find("s").unwrap()).subvol);
}

#[test]
fn saved_children_are_in_the_order_of_their_names() {
    let mut t = Tree::new();
    for p in ["b/y", "a", "b/x"] {
        t.add_sample(&Sample { owners: vec![p.into()], ..Default::default() });
    }
    t.remove(t.find("a").unwrap());
    let j = to_json(&t, ROOT);
    assert_eq!(j.name, "");
    assert_eq!(j.children.len(), 1);
    let names: Vec<&str> = j.children[0].children.iter().map(|c| c.name.as_str()).collect();
    assert_eq!(names, vec!["x", "y"]);
}

fn leaf(name: &str, represented: u64) -> JNode {
    JNode {
        name: name.into(),
        subvol: false,
        c: Counters { represented, ..Default::default() },
        children: vec![],
    }
}

#[test]
fn the_last_of_two_children_with_one_name_counts() {
    let mut root = leaf("ignored", 9);
    root.subvol = true;
    root.children = vec![leaf("x", 1), leaf("x", 2)];
    let mut t = Tree::new();
    from_json(&mut t, ROOT, &root);
    assert_eq!(t.children(ROOT).len(), 1);
    assert_eq!(t.node(t.find("x").unwrap()).c.represented, 2);
    assert_eq!(t.node(ROOT).c.represented, 9);
    assert_eq!(t.node(ROOT).name, "");
    assert!(t.node(ROOT).subvol);
}
