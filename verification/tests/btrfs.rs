use btdua::btrfs::ops::{
    backref_key, chunk_key, chunks, container_args, decode_file_extent, decode_paths, extent_key,
    file_extents, fsid, fsid_string, ino_lookup, logical_ino, lookup_args, refs_are_within,
    root_backref, snap_destroy, Chunk, InodeRef, LogicalReply, CHUNK_ITEM_KEY, EXTENT_DATA_KEY,
    MAX_LOGICAL_BUF, ROOT_BACKREF_KEY,
};
use btdua::btrfs::search::{
    ask, go_on, next, page, page_is_whole, start, Item, Place, SearchKey, BUF, HDR,
};
use btdua::btrfs::{
    errno_name, ioc, is_not_found, is_permission_error, rd_u16, rd_u32, rd_u64, wr_u32, wr_u64,
    IOC_FS_INFO, IOC_INO_LOOKUP, IOC_INO_PATHS, IOC_LOGICAL_INO_V2, IOC_RW, IOC_SNAP_DESTROY,
    IOC_TREE_SEARCH_V2,
};

#[test]
fn ioctl_numbers_match_kernel_headers() {
    assert_eq!(IOC_TREE_SEARCH_V2, 0xC070_9411);
    assert_eq!(IOC_INO_LOOKUP, 0xD000_9412);
    assert_eq!(IOC_INO_PATHS, 0xC038_9423);
    assert_eq!(IOC_LOGICAL_INO_V2, 0xC038_943B);
    assert_eq!(IOC_FS_INFO, 0x8400_941F);
    assert_eq!(IOC_SNAP_DESTROY, 0x5000_940F);
}

#[test]
fn decodes_regular_compressed_extent() {
    let mut d = vec![0u8; 53];
    wr_u64(&mut d, 8, 131072); // ram_bytes
    d[16] = 3; // zstd
    d[20] = 1; // regular
    wr_u64(&mut d, 21, 0x1000_0000);
    wr_u64(&mut d, 29, 16384);
    wr_u64(&mut d, 45, 131072);
    let fe = decode_file_extent(4096, &d).unwrap();
    assert_eq!(fe.compression, 3);
    assert_eq!((fe.disk_bytenr, fe.disk_num_bytes, fe.ram_bytes), (0x1000_0000, 16384, 131072));
}

#[test]
fn decodes_ino_paths_container() {
    let mut b = vec![0u8; 64];
    wr_u32(&mut b, 8, 2); // elem_cnt
    wr_u64(&mut b, 16, 16); // offsets relative to val[0] (byte 16)
    wr_u64(&mut b, 24, 20);
    b[32..36].copy_from_slice(b"a/b\0");
    b[36..38].copy_from_slice(b"c\0");
    assert_eq!(decode_paths(&b), vec!["a/b".to_string(), "c".to_string()]);
}

#[test]
fn formats_fsid() {
    let id = [0x12u8; 16];
    assert_eq!(fsid_string(&id), "12121212-1212-1212-1212-121212121212");
}

#[test]
fn fsid_is_read_and_written_in_order() {
    let mut a = vec![0u8; 1024];
    for (i, b) in a.iter_mut().enumerate() {
        *b = (i % 256) as u8;
    }
    let id = fsid(&a);
    assert_eq!(id[0], 16);
    assert_eq!(fsid_string(&id), "10111213-1415-1617-1819-1a1b1c1d1e1f");
    assert_eq!(fsid_string(&[0xf0; 16]), "f0f0f0f0-f0f0-f0f0-f0f0-f0f0f0f0f0f0");
}

#[test]
fn numbers_are_read_as_written() {
    let mut b = vec![0xffu8; 20];
    wr_u64(&mut b, 3, 0x0102_0304_0506_0708);
    assert_eq!(&b[2..12], &[0xff, 8, 7, 6, 5, 4, 3, 2, 1, 0xff]);
    assert_eq!(rd_u64(&b, 3), 0x0102_0304_0506_0708);
    assert_eq!(rd_u32(&b, 3), 0x0506_0708);
    assert_eq!(rd_u16(&b, 3), 0x0708);
    wr_u32(&mut b, 12, u32::MAX - 1);
    assert_eq!(rd_u32(&b, 12), u32::MAX - 1);
    assert_eq!(ioc(IOC_RW, 17, 112), IOC_TREE_SEARCH_V2);
}

#[test]
fn errors_have_names() {
    assert_eq!(errno_name(Some(libc::ENOENT), ""), "ENOENT");
    assert_eq!(errno_name(Some(libc::EPERM), ""), "EPERM");
    assert_eq!(errno_name(Some(libc::EIO), ""), "EIO");
    assert_eq!(errno_name(Some(libc::ENOMEM), ""), "ENOMEM");
    assert_eq!(errno_name(Some(libc::EACCES), ""), "EACCES");
    assert_eq!(errno_name(Some(libc::EINVAL), ""), "EINVAL");
    assert_eq!(errno_name(Some(libc::ENOTDIR), ""), "ENOTDIR");
    assert_eq!(errno_name(Some(libc::EOVERFLOW), ""), "EOVERFLOW");
    assert_eq!(errno_name(Some(libc::ENAMETOOLONG), ""), "ENAMETOOLONG");
    assert_eq!(errno_name(Some(libc::ELOOP), ""), "ELOOP");
    assert_eq!(errno_name(Some(libc::ESTALE), ""), "ESTALE");
    assert_eq!(errno_name(Some(libc::EUCLEAN), ""), "EUCLEAN");
    assert_eq!(errno_name(Some(7), "x"), "errno 7");
    assert_eq!(errno_name(Some(25), "x"), "errno 25");
    assert_eq!(errno_name(Some(-3), "x"), "errno -3");
    assert_eq!(errno_name(None, "some text"), "some text");
    assert!(is_permission_error(Some(libc::EPERM)) && is_permission_error(Some(libc::EACCES)));
    assert!(!is_permission_error(Some(libc::EIO)) && !is_permission_error(None));
    assert!(is_not_found(Some(libc::ENOENT)) && !is_not_found(Some(libc::EIO)));
}

#[test]
fn inline_and_short_extents() {
    let mut d = vec![0u8; 21];
    wr_u64(&mut d, 8, 77);
    let fe = decode_file_extent(0, &d).unwrap();
    assert_eq!((fe.kind, fe.disk_bytenr, fe.num_bytes, fe.ram_bytes), (0, 0, 77, 77));
    assert!(decode_file_extent(0, &d[..20]).is_none());
    d[20] = 1;
    assert!(decode_file_extent(0, &d).is_none());
}

#[test]
fn path_lists_end_where_they_leave_the_answer() {
    let mut b = vec![0u8; 48];
    wr_u32(&mut b, 8, 100);
    wr_u64(&mut b, 16, 24);
    wr_u64(&mut b, 24, 1000);
    b[40..43].copy_from_slice(b"xyz");
    assert_eq!(decode_paths(&b), vec!["xyz".to_string()]);
    wr_u64(&mut b, 24, u64::MAX);
    assert_eq!(decode_paths(&b), vec!["xyz".to_string()]);
    // Bytes that are not UTF-8 are replaced.
    b[41] = 0xff;
    assert_eq!(decode_paths(&b), vec!["x\u{fffd}z".to_string()]);
    assert!(decode_paths(&[0u8; 12]).is_empty());
}

#[test]
fn lookups_are_asked_and_answered() {
    let mut a = lookup_args(5, 257);
    assert_eq!(a.len(), 4096);
    assert_eq!((rd_u64(&a, 0), rd_u64(&a, 8)), (5, 257));
    a[16..21].copy_from_slice(b"a/b/\0");
    assert_eq!(ino_lookup(&a), (5, "a/b/".to_string()));
    let c = container_args(1, 2, 3);
    assert_eq!(c.len(), 56);
    assert_eq!((rd_u64(&c, 0), rd_u64(&c, 8), rd_u64(&c, 48)), (1, 2, 3));
}

#[test]
fn logical_answers_grow_or_give_references() {
    let mut b = vec![0u8; 64 << 10];
    wr_u32(&mut b, 4, 1);
    assert!(refs_are_within(&b));
    assert!(matches!(logical_ino(&b), LogicalReply::Grow(n) if n == 128 << 10));
    wr_u32(&mut b, 4, u32::MAX);
    assert!(matches!(logical_ino(&b), LogicalReply::Grow(n) if n == MAX_LOGICAL_BUF));
    wr_u32(&mut b, 4, 0);
    wr_u32(&mut b, 8, 6);
    for (i, v) in [10u64, 20, 5, 11, 21, 256].iter().enumerate() {
        wr_u64(&mut b, 16 + 8 * i, *v);
    }
    match logical_ino(&b) {
        LogicalReply::Refs(r) => assert_eq!(
            r,
            vec![
                InodeRef { inum: 10, offset: 20, root: 5 },
                InodeRef { inum: 11, offset: 21, root: 256 },
            ]
        ),
        LogicalReply::Grow(_) => panic!("no need to grow"),
    }
    wr_u32(&mut b, 8, 30000);
    assert!(!refs_are_within(&b));
    assert!(!refs_are_within(&[0u8; 15]));
}

fn item(buf: &mut Vec<u8>, objectid: u64, ty: u32, offset: u64, data: &[u8]) {
    let p = buf.len();
    buf.resize(p + 32, 0);
    wr_u64(buf, p + 8, objectid);
    wr_u64(buf, p + 16, offset);
    wr_u32(buf, p + 24, ty);
    wr_u32(buf, p + 28, data.len() as u32);
    buf.extend_from_slice(data);
}

#[test]
fn pages_are_asked_for_and_read() {
    let key = extent_key(256, 300, 10, 20);
    let mut buf = vec![7u8; HDR + BUF];
    ask(&mut buf, &key, start(&key));
    assert_eq!(rd_u64(&buf, 0), 256);
    assert_eq!((rd_u64(&buf, 8), rd_u64(&buf, 16)), (300, 300));
    assert_eq!((rd_u64(&buf, 24), rd_u64(&buf, 32)), (10, 20));
    assert_eq!((rd_u64(&buf, 40), rd_u64(&buf, 48)), (0, u64::MAX));
    assert_eq!((rd_u32(&buf, 56), rd_u32(&buf, 60)), (EXTENT_DATA_KEY, EXTENT_DATA_KEY));
    assert_eq!((rd_u32(&buf, 64), rd_u32(&buf, 68)), (u32::MAX, 0));
    assert_eq!(rd_u64(&buf, 104), BUF as u64);
    assert_eq!(buf[112], 7);

    let mut answer = vec![0u8; HDR];
    item(&mut answer, 300, 108, 12, b"abc");
    item(&mut answer, 300, 108, 15, b"");
    wr_u32(&mut answer, 64, 2);
    assert!(page_is_whole(&answer));
    let items = page(&answer);
    assert_eq!(items.len(), 2);
    assert_eq!((items[0].objectid, items[0].ty, items[0].offset), (300, 108, 12));
    assert_eq!(items[0].data, b"abc");
    let p = go_on(&key, &items).unwrap();
    assert_eq!((p.objectid, p.ty, p.offset), (300, 108, 16));
    wr_u32(&mut answer, 64, 3);
    assert!(!page_is_whole(&answer));
    assert!(!page_is_whole(&answer[..50]));
    wr_u32(&mut answer, 64, 0);
    assert!(go_on(&key, &page(&answer)).is_none());
}

#[test]
fn searches_go_on_with_the_next_place() {
    let key = SearchKey {
        tree_id: 1,
        min_objectid: 1,
        max_objectid: 9,
        min_type: 0,
        max_type: 255,
        min_offset: 0,
        max_offset: u64::MAX,
    };
    let at = |objectid, ty, offset| Place { objectid, ty, offset };
    assert_eq!(next(&key, at(3, 4, 5)), Some(at(3, 4, 6)));
    assert_eq!(next(&key, at(3, 4, u64::MAX)), Some(at(3, 5, 0)));
    assert_eq!(next(&key, at(3, 255, u64::MAX)), Some(at(4, 0, 0)));
    assert_eq!(next(&key, at(9, 255, u64::MAX)), None);
    assert_eq!(next(&key, at(u64::MAX, 255, u64::MAX)), None);
    let one = SearchKey::exact(1, 7, 8);
    assert_eq!(next(&one, at(7, 8, u64::MAX)), None);
}

#[test]
fn items_are_told_apart_by_type() {
    let mut data = vec![0u8; 48];
    wr_u64(&mut data, 0, 1 << 30);
    wr_u64(&mut data, 24, 1);
    let items = vec![
        Item { objectid: 256, ty: CHUNK_ITEM_KEY, offset: 4096, data: &data },
        Item { objectid: 256, ty: CHUNK_ITEM_KEY, offset: 1, data: &data[..31] },
        Item { objectid: 256, ty: 1, offset: 2, data: &data },
    ];
    let mut v = Vec::new();
    chunks(&mut v, &items);
    assert_eq!(v, vec![Chunk { start: 4096, len: 1 << 30, flags: 1 }]);
    let key = chunk_key();
    assert_eq!((key.tree_id, key.min_objectid, key.max_type), (3, 256, CHUNK_ITEM_KEY));
}

#[test]
fn backrefs_say_where_a_subvolume_hangs() {
    let mut data = vec![0u8; 22];
    wr_u64(&mut data, 0, 300);
    data[16] = 4;
    data[18..22].copy_from_slice(b"snap");
    let short = [0u8; 17];
    let items = vec![
        Item { objectid: 9, ty: 3, offset: 1, data: &data },
        Item { objectid: 9, ty: ROOT_BACKREF_KEY, offset: 2, data: &short },
        Item { objectid: 9, ty: ROOT_BACKREF_KEY, offset: 5, data: &data },
    ];
    let b = root_backref(&items).unwrap();
    assert_eq!((b.parent, b.dirid, b.name.as_str()), (5, 300, "snap"));
    assert!(root_backref(&items[..2].to_vec()).is_none());
    // A name that is said to be longer than the item ends with the item.
    data[16] = 200;
    let items = vec![Item { objectid: 9, ty: ROOT_BACKREF_KEY, offset: 5, data: &data }];
    assert_eq!(root_backref(&items).unwrap().name, "snap");
    assert_eq!(backref_key(9).min_objectid, 9);
}

#[test]
fn extents_are_those_of_the_inode() {
    let mut d = vec![0u8; 53];
    d[20] = 1;
    let items = vec![
        Item { objectid: 7, ty: EXTENT_DATA_KEY, offset: 0, data: &d },
        Item { objectid: 8, ty: EXTENT_DATA_KEY, offset: 1, data: &d },
        Item { objectid: 7, ty: EXTENT_DATA_KEY, offset: 2, data: &d[..30] },
        Item { objectid: 7, ty: 1, offset: 3, data: &d },
        Item { objectid: 7, ty: EXTENT_DATA_KEY, offset: 4, data: &d },
    ];
    let mut v = Vec::new();
    file_extents(&mut v, 7, &items);
    let at: Vec<u64> = v.iter().map(|e| e.file_offset).collect();
    assert_eq!(at, vec![0, 4]);
}

#[test]
fn names_of_subvolumes_have_a_limit() {
    let a = snap_destroy(b"snap").unwrap();
    assert_eq!(a.len(), 4096);
    assert_eq!(&a[..13], b"\0\0\0\0\0\0\0\0snap\0");
    assert!(snap_destroy(&[b'x'; 4087]).is_some());
    assert!(snap_destroy(&[b'x'; 4088]).is_none());
}

#[test]
fn searches_find_every_item_however_answers_are_cut() {
    let tree = [(1u64, 1u32, 0u64), (1, 1, 5), (1, 255, u64::MAX), (2, 0, 0), (2, 7, 3), (4, 1, 1)];
    let key = SearchKey {
        tree_id: 1,
        min_objectid: 1,
        max_objectid: 2,
        min_type: 1,
        max_type: 7,
        min_offset: 1,
        max_offset: 9,
    };
    for size in 1..4 {
        let mut found = Vec::new();
        let mut place = Some(start(&key));
        while let Some(at) = place {
            let mut buf = vec![0u8; HDR];
            ask(&mut buf, &key, at);
            let from = (rd_u64(&buf, 8), rd_u32(&buf, 56), rd_u64(&buf, 24));
            let to = (rd_u64(&buf, 16), rd_u32(&buf, 60), rd_u64(&buf, 32));
            let answer: Vec<(u64, u32, u64)> =
                tree.iter().copied().filter(|x| from <= *x && *x <= to).take(size).collect();
            for (o, t, f) in &answer {
                item(&mut buf, *o, *t, *f, b"data");
            }
            wr_u32(&mut buf, 64, answer.len() as u32);
            assert!(page_is_whole(&buf));
            let items = page(&buf);
            found.extend(items.iter().map(|i| (i.objectid, i.ty, i.offset)));
            place = go_on(&key, &items);
        }
        assert_eq!(found, tree[1..5].to_vec());
    }
}
