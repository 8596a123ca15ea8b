use btdua::btrfs::ops::{Chunk, FileExtent, InodeRef};
use btdua::rng::Rng;
use btdua::sampler::owners::{
    attribute, bucket_of_chunk, bucket_of_failure, ratio, ratio_window, RefPaths,
};
use btdua::sampler::resolve::{Resolution, Step};
use btdua::sampler::{addressable, join_path, Cache, ChunkMap, Climb, ClimbStep};
use btdua::tree::Ratio;

#[test]
fn chunk_map_picks_by_weight() {
    let m = ChunkMap::new(vec![
        Chunk { start: 1000, len: 10, flags: 4 },
        Chunk { start: 0, len: 5, flags: 1 },
    ]);
    assert_eq!(m.total, 15);
    assert_eq!(m.pick(0), (0, 1));
    assert_eq!(m.pick(4), (4, 1));
    assert_eq!(m.pick(5), (1000, 4));
    assert_eq!(m.pick(14), (1009, 4));
}

#[test]
fn cache_drops_inserts_that_started_before_invalidate() {
    let mut c = Cache::new();
    let started = c.generation;
    c.invalidate();
    c.insert(started, 1, "stale");
    assert_eq!(c.get(1), None);
    c.insert(c.generation, 2, "fresh");
    assert_eq!(c.get(2), Some("fresh"));
}

#[test]
fn joins_paths() {
    assert_eq!(join_path("", "a/b"), "a/b");
    assert_eq!(join_path("@home", "u/f"), "@home/u/f");
    assert_eq!(join_path("x", "y/"), "x/y");
}

#[test]
fn joins_paths_at_the_edges() {
    assert_eq!(join_path("x", ""), "x");
    assert_eq!(join_path("x", "//"), "x");
    assert_eq!(join_path("", "/a/"), "a");
    assert_eq!(join_path("", ""), "");
}

#[test]
fn empty_chunks_are_never_picked() {
    let m = ChunkMap::new(vec![
        Chunk { start: 7, len: 0, flags: 1 },
        Chunk { start: 7, len: 3, flags: 2 },
        Chunk { start: 2, len: 0, flags: 3 },
    ]);
    let picked: Vec<(u64, u64)> = (0..m.total_bytes()).map(|r| m.pick(r)).collect();
    assert_eq!(picked, vec![(7, 2), (8, 2), (9, 2)]);
}

#[test]
fn order_of_chunks_does_not_matter() {
    let c = |start, len, flags| Chunk { start, len, flags };
    let a = ChunkMap::new(vec![c(50, 2, 1), c(9, 0, 2), c(20, 3, 4)]);
    let b = ChunkMap::new(vec![c(20, 3, 4), c(50, 2, 1), c(9, 0, 2)]);
    assert_eq!((a.total, b.total), (5, 5));
    for r in 0..5 {
        assert_eq!(a.pick(r), b.pick(r));
    }
    assert_eq!(a.pick(3), (50, 1));
    assert_eq!(ChunkMap::new(vec![]).total, 0);
}

#[test]
fn draws_are_picks_of_random_numbers() {
    let m = ChunkMap::new(vec![
        Chunk { start: 1000, len: 10, flags: 4 },
        Chunk { start: 0, len: 5, flags: 1 },
    ]);
    let (mut a, mut b) = (Rng::new(7), Rng::new(7));
    for _ in 0..100 {
        assert_eq!(m.draw(&mut a), m.pick(b.below(15)));
    }
}

#[test]
fn chunks_must_be_addressable() {
    let c = |start, len| Chunk { start, len, flags: 0 };
    assert!(addressable(&vec![c(0, u64::MAX)]));
    assert!(addressable(&vec![c(u64::MAX, 1)]));
    assert!(!addressable(&vec![c(u64::MAX, 2)]));
    assert!(!addressable(&vec![c(0, u64::MAX), c(0, 1)]));
    assert!(addressable(&vec![]));
}

#[test]
fn climbing_joins_names_from_the_top() {
    let mut c = Climb::new(300);
    assert!(matches!(c.step(), ClimbStep::Ask(300)));
    c.up(299, "deep/er/", "snap");
    assert!(matches!(c.step(), ClimbStep::Ask(299)));
    c.up(5, "", "home");
    assert!(matches!(c.step(), ClimbStep::Found(p) if p == "home/deep/er/snap"));
    assert!(matches!(Climb::new(5).step(), ClimbStep::Found(p) if p.is_empty()));
}

#[test]
fn climbing_gives_up() {
    let mut c = Climb::new(300);
    for _ in 0..65 {
        assert!(matches!(c.step(), ClimbStep::Ask(_)));
        c.up(300, "", "x");
    }
    assert!(matches!(c.step(), ClimbStep::Lost));
}

#[test]
fn chunks_without_data_are_buckets() {
    assert_eq!(bucket_of_chunk(2).unwrap().owners, vec!["<SYSTEM>"]);
    assert_eq!(bucket_of_chunk(4).unwrap().owners, vec!["<METADATA>"]);
    assert!(bucket_of_chunk(1).is_none());
    assert!(bucket_of_chunk(1 | 4).is_none());
}

#[test]
fn failures_are_buckets() {
    assert_eq!(bucket_of_failure(Some(libc::ENOENT), "").owners, vec!["<UNUSED>"]);
    assert_eq!(bucket_of_failure(Some(libc::EIO), "").owners, vec!["<ERROR>/EIO"]);
    assert_eq!(bucket_of_failure(None, "odd").owners, vec!["<ERROR>/odd"]);
}

fn at(root: u64) -> InodeRef {
    InodeRef { inum: 1, offset: 0, root }
}

fn paths(subvol: &str, v: &[&str]) -> RefPaths {
    RefPaths::Paths(subvol.into(), v.iter().map(|p| p.to_string()).collect())
}

#[test]
fn canonical_owner_has_the_lowest_subvolume_and_the_shortest_path() {
    let refs = vec![at(300), at(256), at(256)];
    let found = vec![paths("snap", &["f"]), paths("home", &["long/f", "b"]), paths("home", &["a"])];
    let o = attribute(&refs, &found);
    assert_eq!(o.owners, vec!["home/a", "home/b", "home/long/f", "snap/f"]);
    assert_eq!(o.subvols, vec!["home", "snap"]);
    assert_eq!(o.canonical, Some(2));
}

#[test]
fn unreachable_owners_come_last_and_once() {
    let refs = vec![at(9), at(8), at(9), at(7), at(5)];
    let found = vec![
        RefPaths::NoSubvol,
        paths("", &[]),
        RefPaths::NoSubvol,
        RefPaths::Failed("EIO".into()),
        paths("", &["f"]),
    ];
    let o = attribute(&refs, &found);
    assert_eq!(
        o.owners,
        vec!["f", "<ERROR>/EIO", "<UNREACHABLE>/subvol 9", "<UNREACHABLE>/unlinked"]
    );
    assert!(o.subvols.is_empty());
    assert_eq!(o.canonical, Some(4));
    let o = attribute(&vec![at(9)], &vec![RefPaths::NoSubvol]);
    assert_eq!(o.canonical, None);
    let o = attribute(&vec![], &vec![]);
    assert_eq!(o.owners, vec!["<UNREACHABLE>"]);
}

fn extent(bytenr: u64, disk: u64, ram: u64, compression: u8) -> FileExtent {
    FileExtent {
        file_offset: 0,
        kind: 1,
        compression,
        ram_bytes: ram,
        disk_bytenr: bytenr,
        disk_num_bytes: disk,
        num_bytes: ram,
    }
}

#[test]
fn ratio_is_that_of_the_extent_at_the_byte() {
    let e = vec![extent(100, 10, 40, 3), extent(200, 10, 30, 1), extent(300, 5, 5, 0)];
    assert_eq!(ratio(&e, 105), Ratio { ram: 40, disk: 10 });
    assert_eq!(ratio(&e, 209), Ratio { ram: 30, disk: 10 });
    assert_eq!(ratio(&e, 210), Ratio { ram: 1, disk: 1 });
    assert_eq!(ratio(&e, 302), Ratio { ram: 1, disk: 1 });
    // The last of several, and no overflow at the end of the address space.
    let e = vec![extent(100, 10, 40, 3), extent(100, 10, 20, 3), extent(u64::MAX, 9, 9, 1)];
    assert_eq!(ratio(&e, 100), Ratio { ram: 20, disk: 10 });
    assert_eq!(ratio(&e, u64::MAX), Ratio { ram: 9, disk: 9 });
    assert_eq!(ratio(&vec![extent(0, 10, 40, 3)], 5), Ratio { ram: 1, disk: 1 });
    assert_eq!(ratio_window(131073), (1, 131073));
    assert_eq!(ratio_window(5), (0, 5));
}

#[test]
fn bytes_are_resolved_step_by_step() {
    let (mut r, step) = Resolution::begin(105, 1);
    assert!(matches!(step, Step::Refs));
    let refs = vec![
        InodeRef { inum: 300, offset: 200000, root: 256 },
        InodeRef { inum: 301, offset: 0, root: 257 },
    ];
    assert!(matches!(r.with_refs(refs), Step::Paths(x) if x.inum == 300));
    assert!(matches!(r.with_paths(paths("home", &["f"])), Step::Paths(x) if x.inum == 301));
    match r.with_paths(RefPaths::NoSubvol) {
        Step::Extents(key) => {
            assert_eq!((key.tree_id, key.min_objectid), (256, 300));
            assert_eq!((key.min_offset, key.max_offset), (200000 - 131072, 200000));
        }
        _ => panic!("the extents come next"),
    }
    let s = r.with_extents(Some(vec![extent(100, 10, 40, 3)]));
    assert_eq!(s.owners, vec!["home/f", "<UNREACHABLE>/subvol 257"]);
    assert_eq!(s.subvols, vec!["home"]);
    assert_eq!(s.ratio, Some(Ratio { ram: 40, disk: 10 }));
    assert_eq!(r.with_extents(None).ratio, None);
}

#[test]
fn bytes_without_files_need_no_extents() {
    let (_, step) = Resolution::begin(0, 2);
    assert!(matches!(step, Step::Done(s) if s.owners == vec!["<SYSTEM>"]));
    let (mut r, _) = Resolution::begin(0, 1);
    assert!(matches!(r.with_refs(vec![]), Step::Done(s) if s.owners == vec!["<UNREACHABLE>"]));
    let (mut r, _) = Resolution::begin(0, 1);
    r.with_refs(vec![at(9)]);
    match r.with_paths(RefPaths::Failed("EIO".into())) {
        Step::Done(s) => {
            assert_eq!(s.owners, vec!["<ERROR>/EIO"]);
            assert_eq!(s.ratio, None);
        }
        _ => panic!("nothing is left to find out"),
    }
}
