use viewfs::attr::{Metadata, Timestamp};
use viewfs::filesystem::{NodeID, OpenAnswer, OpenStep, StatFs, ViewFS, EIO, ENOENT, EROFS};
use viewfs::filter::{FileType, ViewFile};
use viewfs::handles::HandleCache;
use viewfs::ipc::{build_close_request, build_open_request, build_response};

fn meta(mode: u32) -> Metadata {
    Metadata {
        size: 10,
        blocks: 1,
        accessed: Some(Timestamp { secs: 1, nanos: 2 }),
        modified: None,
        created: None,
        ctime: 3,
        ctime_nsec: 4,
        mode,
        uid: 5,
        gid: 6,
        rdev: 7,
        blksize: 4096,
    }
}

fn file(filetype: FileType, path: &str) -> ViewFile {
    ViewFile { filetype, path: path.as_bytes().to_vec() }
}

/// Inodes: 1 is the root, 2 `/s`, 3 `/s/d`, 4 `/s/d/e`, 5 `/s/f`.
fn view() -> ViewFS {
    ViewFS::new(
        vec![
            file(FileType::File, "/s/f"),
            file(FileType::Dir, "/s/d"),
            file(FileType::Dir, "/s/d/e"),
        ],
        &meta(0o040_755),
    )
}

type Entry = (u64, u64, FileType, String);

fn list(fs: &ViewFS, ino: u64, offset: u64) -> Vec<Entry> {
    fs.readdir(ino, offset)
        .unwrap()
        .into_iter()
        .map(|e| (e.ino, e.next, e.kind, String::from_utf8(e.name).unwrap()))
        .collect()
}

#[test]
fn error_numbers_are_those_of_the_system() {
    assert_eq!(ENOENT, nix::libc::ENOENT);
    assert_eq!(EIO, nix::libc::EIO);
    assert_eq!(EROFS, nix::libc::EROFS);
}

#[test]
fn statfs_counts_the_nodes() {
    assert_eq!(
        view().statfs(),
        StatFs {
            blocks: 0,
            bfree: 0,
            bavail: 0,
            files: 5,
            ffree: 0,
            bsize: 4096,
            namelen: 255,
            frsize: 4096,
        }
    );
}

#[test]
fn inodes_are_node_numbers_plus_one() {
    let fs = view();
    for n in 0..5 {
        assert_eq!(NodeID(n).ino(), n as u64 + 1);
        assert_eq!(fs.get_inode(NodeID(n).ino()), Some(NodeID(n)));
        assert_eq!(fs.getattr(NodeID(n).ino()), Ok(NodeID(n)));
        assert_eq!(fs.get_node_inode(n as u64 + 1).unwrap().0, NodeID(n));
    }
    for ino in [0, 6, u64::MAX] {
        assert_eq!(fs.get_inode(ino), None);
        assert!(fs.get_node_inode(ino).is_none());
        assert_eq!(fs.getattr(ino), Err(ENOENT));
    }
    assert!(fs.get_node(NodeID(5)).is_none());
    assert_eq!(fs.get_node(NodeID(4)).unwrap().path, b"/s/f".to_vec());
    assert_eq!(fs.node_filetype(fs.get_node(NodeID(4)).unwrap()), FileType::File);
}

#[test]
fn lookup_finds_children_by_name() {
    let fs = view();
    assert_eq!(fs.lookup(1, b"s"), Ok(NodeID(1)));
    assert_eq!(fs.lookup(2, b"d"), Ok(NodeID(2)));
    assert_eq!(fs.lookup(2, b"f"), Ok(NodeID(4)));
    assert_eq!(fs.lookup(3, b"e"), Ok(NodeID(3)));
    for (parent, name) in [(1, &b"d"[..]), (2, b"."), (2, b"ff"), (2, b""), (0, b"s"), (6, b"s")] {
        assert_eq!(fs.lookup(parent, name), Err(ENOENT));
    }
}

#[test]
fn directories_are_listed() {
    let fs = view();
    let s = |s: &str| s.to_string();
    assert_eq!(
        list(&fs, 2, 0),
        vec![
            (2, 1, FileType::Dir, s(".")),
            (1, 2, FileType::Dir, s("..")),
            (3, 3, FileType::Dir, s("d")),
            (5, 4, FileType::File, s("f")),
        ]
    );
    assert_eq!(
        list(&fs, 1, 0)[..2],
        [(1, 1, FileType::Dir, s(".")), (1, 2, FileType::Dir, s(".."))]
    );
    assert_eq!(fs.readdir(9, 0).err(), Some(ENOENT));
    assert_eq!(fs.readdir(0, 0).err(), Some(ENOENT));
}

#[test]
fn listings_resume_where_they_were_left() {
    let fs = view();
    for ino in 1..6 {
        let all = list(&fs, ino, 0);
        for (k, entry) in all.iter().enumerate() {
            assert_eq!(list(&fs, ino, entry.1), all[k + 1..]);
        }
        assert!(list(&fs, ino, all.len() as u64).is_empty());
        assert!(list(&fs, ino, u64::MAX).is_empty());
    }
}

#[test]
fn listed_entries_are_found_and_lead_back() {
    let fs = view();
    for ino in 1..6 {
        let all = list(&fs, ino, 0);
        for (k, entry) in all.iter().enumerate() {
            assert_eq!(all.iter().filter(|e| e.3 == entry.3).count(), 1);
            if k >= 2 {
                let id = fs.lookup(ino, entry.3.as_bytes()).unwrap();
                assert_eq!(id.ino(), entry.0);
                assert_eq!(list(&fs, entry.0, 1)[0].0, ino);
                let attr = fs.attr_reply(id, Some(&meta(0o644))).unwrap();
                assert_eq!((attr.ino, attr.kind), (entry.0, entry.2));
            }
        }
    }
}

#[test]
fn attributes_count_links() {
    let fs = view();
    let links: Vec<u32> = (0..5)
        .map(|n| fs.attr_reply(NodeID(n), Some(&meta(0o644))).unwrap().nlink)
        .collect();
    assert_eq!(links, vec![3, 3, 3, 2, 1]);
}

#[test]
fn the_root_has_the_attributes_of_the_mount_point() {
    let fs = view();
    let root = fs.get_file_attr(NodeID(0), None).unwrap();
    assert_eq!((root.ino, root.kind, root.perm), (1, FileType::Dir, 0o040_555));
    assert_eq!((root.size, root.ctime.secs, root.mtime.secs), (10, 3, 0));
    let other = Metadata { size: 99, ..meta(0) };
    assert_eq!(fs.get_file_attr(NodeID(0), Some(&other)), Some(root));
}

#[test]
fn without_metadata_there_are_no_attributes() {
    let fs = view();
    assert_eq!(fs.get_file_attr(NodeID(4), None), None);
    assert_eq!(fs.attr_reply(NodeID(4), None), Err(EIO));
    assert_eq!(fs.get_file_attr(NodeID(5), Some(&meta(0))), None);
    assert_eq!(fs.attr_reply(NodeID(4), Some(&meta(0o100_666))).unwrap().perm, 0o100_444);
}

#[test]
fn open_for_writing_is_refused() {
    let fs = view();
    let mut cache = HandleCache::new();
    for flags in [nix::libc::O_WRONLY, nix::libc::O_RDWR, 1 | 0o2000, 2 | 0o100_000] {
        for ino in [5, 77] {
            assert!(matches!(fs.open(&mut cache, ino, flags), OpenStep::Fail(e) if e == EROFS));
        }
    }
    assert!(matches!(fs.open(&mut cache, 77, nix::libc::O_RDONLY), OpenStep::Fail(e) if e == ENOENT));
    for flags in [nix::libc::O_RDONLY, 0o100_000, 3, nix::libc::O_CLOEXEC] {
        assert!(matches!(fs.open(&mut cache, 5, flags), OpenStep::Ask { .. }), "{flags}");
    }
}

#[test]
fn a_file_is_opened_through_the_server() {
    let fs = view();
    let mut cache = HandleCache::new();
    let node_id = match fs.open(&mut cache, 5, 0) {
        OpenStep::Ask { node_id, msg } => {
            assert_eq!(msg, build_open_request(b"/s/f"));
            node_id
        }
        _ => panic!("the server is to be asked"),
    };
    assert_eq!(node_id, NodeID(4));
    let answer = OpenAnswer::Received { len: 5, buf: build_response(0, 21) };
    let first = fs.finish_open(&mut cache, node_id, answer).ok().unwrap();
    assert_eq!((first.raw_id, first.close), (21, None));
    let second = match fs.open(&mut cache, 5, 0) {
        OpenStep::Done(o) => o,
        _ => panic!("the file is open already"),
    };
    assert_eq!((second.raw_id, second.close), (21, None));
    let answer = OpenAnswer::Received { len: 5, buf: build_response(0, 22) };
    let third = fs.finish_open(&mut cache, node_id, answer).ok().unwrap();
    assert_eq!((third.raw_id, third.close), (21, Some(build_close_request(22))));

    assert_eq!(fs.release(&mut cache, 5, first.fh), Ok(None));
    assert_eq!(fs.release(&mut cache, 5, third.fh), Ok(None));
    assert_eq!(fs.release(&mut cache, 99, second.fh), Err(ENOENT));
    assert_eq!(fs.release(&mut cache, 5, second.fh), Ok(Some(build_close_request(21))));
    assert_eq!(fs.release(&mut cache, 5, second.fh), Ok(None));
    assert!(matches!(fs.open(&mut cache, 5, 0), OpenStep::Ask { .. }));
}

#[test]
fn failed_answers_are_errors() {
    let fs = view();
    let mut cache = HandleCache::new();
    for (answer, errno) in [
        (OpenAnswer::NotSent, EIO),
        (OpenAnswer::NotReceived, EIO),
        (OpenAnswer::Received { len: 4, buf: build_response(0, 1) }, EIO),
        (OpenAnswer::Received { len: 5, buf: build_response(13, 0) }, 13),
        (OpenAnswer::Received { len: 5, buf: build_response(255, 0) }, 255),
    ] {
        assert_eq!(fs.finish_open(&mut cache, NodeID(4), answer).err(), Some(errno));
    }
    assert!(matches!(fs.open(&mut cache, 5, 0), OpenStep::Ask { .. }));
}

#[test]
fn access_modes_have_the_values_of_the_system() {
    assert_eq!(nix::libc::O_ACCMODE, 3);
    assert_eq!(nix::libc::O_RDONLY, 0);
    assert_eq!(nix::libc::O_WRONLY, 1);
    assert_eq!(nix::libc::O_RDWR, 2);
}

#[test]
fn access_modes_are_read_as_fuser_reads_them() {
    let fs = view();
    let mut cache = HandleCache::new();
    let mut flags: Vec<i32> = (-40..5000).collect();
    flags.extend((0..32).flat_map(|bit| (0..4).map(move |mode| 1i32.wrapping_shl(bit) | mode)));
    for flags in flags {
        let read_only = fuser::OpenFlags(flags).acc_mode() == fuser::OpenAccMode::O_RDONLY;
        let asked = matches!(fs.open(&mut cache, 5, flags), OpenStep::Ask { .. });
        assert_eq!(asked, read_only, "{flags}");
    }
}

#[test]
fn a_file_with_a_backing_id_is_open() {
    let fs = view();
    let mut cache = HandleCache::new();
    assert!(!fs.is_open(&cache, 5, 0));
    let answer = OpenAnswer::Received { len: 5, buf: build_response(0, 3) };
    assert_eq!(answer.id(), Ok(3));
    let fh = fs.finish_open(&mut cache, NodeID(4), answer).ok().unwrap().fh;
    assert!(fs.is_open(&cache, 5, 0));
    for (ino, flags) in [(5, 1), (5, 2), (4, 0), (0, 0), (6, 0)] {
        assert!(!fs.is_open(&cache, ino, flags));
    }
    assert_eq!(fs.release(&mut cache, 5, fh), Ok(Some(build_close_request(3))));
    assert!(!fs.is_open(&cache, 5, 0));
}

#[test]
fn attributes_are_of_the_node() {
    let fs = view();
    for n in 0..5 {
        let attr = fs.attr_reply(NodeID(n), Some(&meta(0o644))).unwrap();
        assert_eq!(attr.ino, n as u64 + 1);
        assert_eq!(attr.kind, fs.node_filetype(fs.get_node(NodeID(n)).unwrap()));
    }
}

#[test]
fn answers_come_to_an_id_or_an_error() {
    assert_eq!(OpenAnswer::NotSent.id(), Err(EIO));
    assert_eq!(OpenAnswer::NotReceived.id(), Err(EIO));
    assert_eq!(OpenAnswer::Received { len: 3, buf: [0; 5] }.id(), Err(EIO));
    assert_eq!(OpenAnswer::Received { len: 5, buf: [2, 0, 0, 0, 0] }.id(), Err(2));
    assert_eq!(OpenAnswer::Received { len: 5, buf: [0, 9, 1, 0, 0] }.id(), Ok(265));
}

#[test]
fn writes_are_refused() {
    assert_eq!(view().refuse_write(), EROFS);
}
