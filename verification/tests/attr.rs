use viewfs::attr::{make_attr, FileAttr, Metadata, SinceEpoch, Timestamp};
use viewfs::filter::FileType;

fn meta() -> Metadata {
    Metadata {
        size: 1234,
        blocks: 8,
        accessed: Some(Timestamp { secs: -5, nanos: 10 }),
        modified: Some(Timestamp { secs: 1, nanos: 0 }),
        created: None,
        ctime: 77,
        ctime_nsec: 999_999_999,
        mode: 0o100_775,
        uid: 1000,
        gid: 100,
        rdev: 0x1_0000_0005,
        blksize: 4096,
    }
}

#[test]
fn attributes_of_a_file() {
    assert_eq!(
        make_attr(&meta(), 3, FileType::File, 1),
        FileAttr {
            ino: 3,
            size: 1234,
            blocks: 8,
            atime: Timestamp { secs: -5, nanos: 10 },
            mtime: Timestamp { secs: 1, nanos: 0 },
            ctime: SinceEpoch { secs: 77, nanos: 999_999_999 },
            crtime: Timestamp { secs: 0, nanos: 0 },
            kind: FileType::File,
            perm: 0o100_555,
            nlink: 1,
            uid: 1000,
            gid: 100,
            rdev: 5,
            blksize: 4096,
            flags: 0,
        }
    );
}

#[test]
fn nobody_may_write() {
    for mode in [0, 0o222, 0o777, 0o100_644, 0o040_755, 0o104_777, u32::MAX] {
        let attr = make_attr(&Metadata { mode, ..meta() }, 2, FileType::Dir, 2);
        assert_eq!(attr.perm & 0o222, 0);
        assert_eq!(attr.perm | 0o222, mode as u16 | 0o222);
    }
}

#[test]
fn times_before_the_epoch_count_as_the_epoch() {
    let attr = make_attr(&Metadata { ctime: -3, ctime_nsec: -1, ..meta() }, 2, FileType::Dir, 2);
    assert_eq!(attr.ctime, SinceEpoch { secs: 0, nanos: 0 });
    let far = make_attr(&Metadata { ctime: i64::MAX, ..meta() }, 2, FileType::Dir, 2);
    assert_eq!(far.ctime.secs, 9_223_372_036_854_775_807);
}
