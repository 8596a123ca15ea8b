use btdua::rational::Rational;
use btdua::tree::{Ratio, Sample, Tree, MAX_SHARERS, ROOT};

fn s(owners: &[&str]) -> Sample {
    Sample { owners: owners.iter().map(|o| o.to_string()).collect(), ..Default::default() }
}

fn number(r: &Rational) -> f64 {
    r.terms()
        .iter()
        .map(|t| {
            let v = t.num as f64 / t.den as f64;
            if t.neg { -v } else { v }
        })
        .sum()
}

#[test]
fn single_owner_counts_up_the_chain() {
    let mut t = Tree::new();
    t.add_sample(&s(&["a/b/c"]));
    for p in ["", "a", "a/b", "a/b/c"] {
        let c = &t.node(t.find(p).unwrap()).c;
        assert_eq!((c.represented, c.exclusive, c.shared), (1, 1, 0), "{p}");
        assert_eq!(number(&c.distributed), 1.0);
    }
    assert_eq!(t.total_samples, 1);
}

#[test]
fn shared_between_subtrees() {
    let mut t = Tree::new();
    t.add_sample(&s(&["a/x", "b/y"]));
    let (a, b, x) = (t.find("a").unwrap(), t.find("b").unwrap(), t.find("a/x").unwrap());
    assert_eq!(t.node(a).c.represented, 1);
    assert_eq!(t.node(b).c.represented, 0);
    assert_eq!(number(&t.node(b).c.distributed), 0.5);
    assert_eq!((t.node(a).c.exclusive, t.node(a).c.shared), (0, 1));
    assert_eq!((t.node(ROOT).c.exclusive, t.node(ROOT).c.shared), (1, 0));
    assert_eq!(&*t.node(x).sharers[0], "b/y");
}

#[test]
fn shared_within_one_dir_is_exclusive_to_it() {
    let mut t = Tree::new();
    t.add_sample(&s(&["d/x", "d/y"]));
    let d = t.find("d").unwrap();
    assert_eq!((t.node(d).c.exclusive, t.node(d).c.shared), (1, 0));
    assert_eq!(t.node(d).c.represented, 1);
}

#[test]
fn remove_subtracts_and_detaches() {
    let mut t = Tree::new();
    t.add_sample(&s(&["a/x"]));
    t.add_sample(&s(&["a/y"]));
    let x = t.find("a/x").unwrap();
    t.remove(x);
    assert!(t.find("a/x").is_none());
    assert!(!t.is_live(x));
    assert_eq!(t.node(t.find("a").unwrap()).c.represented, 1);
    assert_eq!(t.total_samples, 2);
}

#[test]
fn flags_subvols_and_specials() {
    let mut t = Tree::new();
    t.add_sample(&Sample {
        owners: vec!["s/f".into()],
        subvols: vec!["s".into()],
        ratio: Some(Ratio { ram: 4, disk: 1 }),
    });
    t.add_sample(&Sample::bucket("<ERROR>/EIO"));
    let sv = t.find("s").unwrap();
    assert!(t.node(sv).subvol && t.has_subvol(ROOT));
    assert!(t.is_special(t.find("<ERROR>/EIO").unwrap()));
    assert!(!t.is_special(sv));
    let (n, d) = t.node(sv).c.ratio().unwrap();
    assert_eq!(n as f64 / number(&d), 0.25);
}

#[test]
fn counters_of_entries_add_up_to_no_more_than_the_directory() {
    let mut t = Tree::new();
    t.add_sample(&s(&["d/x", "d/y", "e"]));
    t.add_sample(&s(&["d/x"]));
    t.add_sample(&s(&["d/y", "d/z"]));
    let d = t.find("d").unwrap();
    let kids = t.children(d).clone();
    let rep: u64 = kids.iter().map(|&k| t.node(k).c.represented).sum();
    let dist: f64 = kids.iter().map(|&k| number(&t.node(k).c.distributed)).sum();
    assert_eq!(rep, 3);
    assert_eq!(rep, t.node(d).c.represented);
    assert!((dist - number(&t.node(d).c.distributed)).abs() < 1e-12);
    assert_eq!(t.node(d).c.exclusive, 2);
    assert_eq!(t.node(d).c.shared, 1);
    assert_eq!(t.node(ROOT).c.represented, 3);
    assert_eq!(number(&t.node(ROOT).c.distributed), 3.0);
}

#[test]
fn children_are_listed_by_name() {
    let mut t = Tree::new();
    for p in ["b", "a", "c/x", "B", "\u{e9}"] {
        t.add_sample(&s(&[p]));
    }
    let names: Vec<String> = t.children(ROOT).iter().map(|&k| t.node(k).name.clone()).collect();
    assert_eq!(names, vec!["B", "a", "b", "c", "\u{e9}"]);
}

#[test]
fn paths_lead_back() {
    let mut t = Tree::new();
    let id = t.get_or_create("//a///b/");
    assert_eq!(t.path_of(id), "a/b");
    assert_eq!(t.find("a/b"), Some(id));
    assert_eq!(t.find(&t.path_of(id)), Some(id));
    assert_eq!(t.path_of(ROOT), "");
    assert_eq!(t.find("a/c"), None);
    assert_eq!(t.get_or_create("a/b"), id);
    assert_eq!(t.get_or_create("/"), ROOT);
    assert!(t.is_live(id));
    assert_eq!(t.node(id).c.represented, 0);
    assert_eq!(t.children(ROOT).len(), 1);
}

#[test]
fn removal_is_for_good_and_takes_what_is_below() {
    let mut t = Tree::new();
    t.add_sample(&s(&["a/b/c"]));
    t.add_sample(&s(&["a/d"]));
    let (b, c) = (t.find("a/b").unwrap(), t.find("a/b/c").unwrap());
    t.remove(b);
    assert!(!t.is_live(b) && !t.is_live(c));
    assert_eq!(t.find("a/b/c"), None);
    let before = t.node(ROOT).c.clone();
    t.remove(b);
    t.remove(c);
    assert!(t.node(ROOT).c == before);
    assert_eq!(t.node(ROOT).c.represented, 1);
    t.remove(ROOT);
    assert!(t.is_live(ROOT));
    // The same path comes back as another node.
    t.add_sample(&s(&["a/b/c"]));
    assert_ne!(t.find("a/b"), Some(b));
    assert!(!t.is_live(c));
}

#[test]
fn removal_does_not_go_below_zero() {
    let mut t = Tree::new();
    t.add_sample(&s(&["a/x", "a/y"]));
    let x = t.find("a/x").unwrap();
    let a = t.find("a").unwrap();
    assert_eq!(t.node(x).c.shared, 1);
    assert_eq!(t.node(a).c.shared, 0);
    t.remove(x);
    assert_eq!(t.node(a).c.shared, 0);
    assert_eq!(number(&t.node(a).c.distributed), 0.5);
}

#[test]
fn sharers_are_few_and_the_oldest_leaves() {
    let mut t = Tree::new();
    for i in 0..7 {
        let other = format!("o{i}");
        t.add_sample(&s(&["x", &other]));
        t.add_sample(&s(&["x", &other]));
    }
    let x = t.find("x").unwrap();
    assert_eq!(t.node(x).sharers, vec!["o2", "o3", "o4", "o5", "o6"]);
    assert_eq!(t.node(x).sharers.len(), MAX_SHARERS);
}

#[test]
fn ancestors_and_nested_subvolumes() {
    let mut t = Tree::new();
    t.add_sample(&Sample {
        owners: vec!["a/b/s/f".into()],
        subvols: vec!["a/b/s".into()],
        ratio: None,
    });
    let (a, f) = (t.find("a").unwrap(), t.find("a/b/s/f").unwrap());
    assert!(t.is_ancestor(a, f));
    assert!(!t.is_ancestor(f, a));
    assert!(!t.is_ancestor(a, a));
    assert!(t.has_subvol(a));
    assert!(!t.has_subvol(f));
}

#[test]
fn offers_are_taken_where_there_is_room() {
    let mut t = Tree::new();
    assert!(t.offer(&s(&["a/b"])));
    assert_eq!(t.total_samples, 1);
    let bad = Sample {
        owners: vec!["a".into()],
        subvols: vec![],
        ratio: Some(Ratio { ram: 1, disk: 0 }),
    };
    assert!(!t.offer(&bad));
    assert_eq!(t.total_samples, 1);
    assert!(t.offer(&Sample::default()));
    assert_eq!(t.total_samples, 1);
}

#[test]
fn compression_is_summed_along_the_canonical_owner() {
    let mut t = Tree::new();
    for (ram, disk) in [(131072, 16384), (3, 1), (1, 1)] {
        t.add_sample(&Sample {
            owners: vec!["a/x".into(), "b".into()],
            subvols: vec![],
            ratio: Some(Ratio { ram, disk }),
        });
    }
    let a = t.find("a").unwrap();
    let b = t.find("b").unwrap();
    assert_eq!(t.node(a).c.comp_samples, 3);
    assert_eq!(number(&t.node(a).c.uncompressed), 12.0);
    assert_eq!(t.node(b).c.comp_samples, 0);
    assert!(t.node(b).c.ratio().is_none());
}
