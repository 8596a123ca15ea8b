use std::collections::BTreeMap;

use btdua::fsat::{
    is_dir, is_file, is_subvol_root, path_components, split_parent, Deletion, PathError, Reply,
    Request, Stat,
};

fn stat(mode: u32, ino: u64) -> Stat {
    Stat { mode, ino, dev: 1 }
}

#[test]
fn modes_tell_what_an_entry_is() {
    let dir = stat(libc::S_IFDIR | 0o755, 300);
    let sub = stat(libc::S_IFDIR | 0o755, 256);
    let file = stat(libc::S_IFREG | 0o644, 256);
    let link = stat(libc::S_IFLNK | 0o777, 256);
    assert!(is_dir(&dir) && is_dir(&sub) && !is_dir(&file) && !is_dir(&link));
    assert!(is_file(&file) && !is_file(&dir) && !is_file(&link));
    assert!(is_subvol_root(&sub) && !is_subvol_root(&dir) && !is_subvol_root(&file));
}

#[test]
fn dots_are_rejected() {
    assert_eq!(path_components("../outside/x").unwrap_err(), PathError::Dots);
    assert_eq!(path_components("a/./b").unwrap_err(), PathError::Dots);
    assert_eq!(path_components("/a//b.c/..d/").unwrap(), vec!["a", "b.c", "..d"]);
    assert_eq!(split_parent("a/..").unwrap_err(), PathError::Dots);
    assert_eq!(split_parent("//").unwrap_err(), PathError::Empty);
    let (dirs, name) = split_parent("a/b/c").unwrap();
    assert_eq!(dirs, vec!["a", "b"]);
    assert_eq!(name, "c");
}

/// A directory tree in memory.
#[derive(Clone)]
struct Node {
    st: Stat,
    kids: BTreeMap<Vec<u8>, Node>,
}

fn file() -> Node {
    Node { st: stat(libc::S_IFREG, 300), kids: BTreeMap::new() }
}

fn dir(ino: u64, kids: Vec<(&str, Node)>) -> Node {
    let kids = kids.into_iter().map(|(n, k)| (n.as_bytes().to_vec(), k)).collect();
    Node { st: stat(libc::S_IFDIR, ino), kids }
}

fn has_subvol(n: &Node) -> bool {
    n.kids.values().any(|k| is_subvol_root(&k.st) || has_subvol(k))
}

fn open<'a>(top: &'a mut Node, path: &[Vec<u8>]) -> &'a mut Node {
    let mut n = top;
    for p in path {
        n = n.kids.get_mut(p).unwrap();
    }
    n
}

fn delete(top: &mut Node, name: &str) -> Vec<String> {
    let mut d = Deletion::new(name.as_bytes().to_vec());
    let mut path: Vec<Vec<u8>> = Vec::new();
    let mut log = Vec::new();
    while let Some(q) = d.request() {
        let here = open(top, &path);
        let show = |n: &Vec<u8>| String::from_utf8(n.clone()).unwrap();
        let reply = match q {
            Request::Stat(n) => Reply::Stat(here.kids[&n].st),
            Request::Enter(n) => {
                let st = here.kids[&n].st;
                assert!(is_dir(&st));
                path.push(n);
                Reply::Stat(st)
            }
            Request::Open(n) => {
                assert!(is_dir(&here.kids[&n].st));
                path.push(n);
                Reply::Done
            }
            Request::List => Reply::Names(here.kids.keys().cloned().collect()),
            Request::Leave => {
                path.pop().unwrap();
                Reply::Done
            }
            Request::Unlink(n) => {
                assert!(!is_dir(&here.kids[&n].st));
                log.push(format!("unlink {}", show(&n)));
                here.kids.remove(&n);
                Reply::Done
            }
            Request::Rmdir(n) => {
                assert!(here.kids[&n].kids.is_empty());
                log.push(format!("rmdir {}", show(&n)));
                here.kids.remove(&n);
                Reply::Done
            }
            Request::Destroy(n) => {
                assert!(is_subvol_root(&here.kids[&n].st) && !has_subvol(&here.kids[&n]));
                log.push(format!("destroy {}", show(&n)));
                here.kids.remove(&n);
                Reply::Done
            }
        };
        assert!(d.reply(reply));
    }
    assert!(path.is_empty());
    log
}

#[test]
fn directory_trees_are_deleted_from_the_inside() {
    let mut top = dir(
        1000,
        vec![
            ("a", dir(301, vec![("b", dir(302, vec![("f", file())])), ("g", file())])),
            ("keep", file()),
        ],
    );
    let log = delete(&mut top, "a");
    assert_eq!(log, vec!["unlink f", "rmdir b", "unlink g", "rmdir a"]);
    assert_eq!(top.kids.len(), 1);
    assert_eq!(delete(&mut top, "keep"), vec!["unlink keep"]);
}

#[test]
fn links_are_removed_and_never_entered() {
    let link = || Node { st: stat(libc::S_IFLNK, 256), kids: BTreeMap::new() };
    let mut top = dir(
        1000,
        vec![("dir", dir(301, vec![("link", link()), ("sub", dir(256, vec![("link", link())]))]))],
    );
    assert_eq!(delete(&mut top, "dir"), vec!["unlink link", "destroy sub", "rmdir dir"]);
    assert!(top.kids.is_empty());
    top.kids.insert(b"link".to_vec(), link());
    assert_eq!(delete(&mut top, "link"), vec!["unlink link"]);
}

#[test]
fn nested_subvolumes_are_destroyed_first() {
    let inner = dir(256, vec![("deep", dir(256, vec![("x", file())])), ("y", file())]);
    let outer = dir(256, vec![("d", dir(303, vec![("inner", inner)])), ("f", file())]);
    let mut top = dir(1000, vec![("s", outer), ("t", dir(256, vec![]))]);
    let log = delete(&mut top, "s");
    assert_eq!(log, vec!["destroy deep", "destroy inner", "destroy s"]);
    assert_eq!(top.kids.len(), 1);
}

#[test]
fn subvolumes_in_a_directory_go_with_it() {
    let mut top = dir(
        1000,
        vec![("d", dir(301, vec![("s", dir(256, vec![("f", file())])), ("z", file())]))],
    );
    assert_eq!(delete(&mut top, "d"), vec!["destroy s", "unlink z", "rmdir d"]);
}

#[test]
fn an_exchanged_directory_stops_the_deletion() {
    let mut d = Deletion::new(b"a".to_vec());
    assert!(matches!(d.request(), Some(Request::Stat(n)) if n == b"a"));
    assert!(d.reply(Reply::Stat(stat(libc::S_IFDIR, 300))));
    assert!(matches!(d.request(), Some(Request::Enter(n)) if n == b"a"));
    assert!(!d.reply(Reply::Stat(stat(libc::S_IFDIR, 301))));
}
