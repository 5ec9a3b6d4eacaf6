//! File attributes: what the underlying file system says of a file, and what the view
//! says of it.

use vstd::prelude::*;

use crate::filter::FileType;

verus! {

/// A point in time, counted from the epoch.
#[derive(Clone, Copy, Debug, PartialEq, Eq, Structural)]
pub struct Timestamp {
    pub secs: i64,
    pub nanos: u32,
}

/// A time that has passed since the epoch.
#[derive(Clone, Copy, Debug, PartialEq, Eq, Structural)]
pub struct SinceEpoch {
    pub secs: u64,
    pub nanos: u32,
}

/// What the underlying file system says of a file. A time that it cannot tell is `None`.
#[derive(Clone, Copy, Debug)]
pub struct Metadata {
    pub size: u64,
    pub blocks: u64,
    pub accessed: Option<Timestamp>,
    pub modified: Option<Timestamp>,
    pub created: Option<Timestamp>,
    pub ctime: i64,
    pub ctime_nsec: i64,
    pub mode: u32,
    pub uid: u32,
    pub gid: u32,
    pub rdev: u64,
    pub blksize: u64,
}

/// What the view says of a file.
#[derive(Clone, Copy, Debug, PartialEq, Eq, Structural)]
pub struct FileAttr {
    pub ino: u64,
    pub size: u64,
    pub blocks: u64,
    pub atime: Timestamp,
    pub mtime: Timestamp,
    pub ctime: SinceEpoch,
    pub crtime: Timestamp,
    pub kind: FileType,
    pub perm: u16,
    pub nlink: u32,
    pub uid: u32,
    pub gid: u32,
    pub rdev: u32,
    pub blksize: u32,
    pub flags: u32,
}

/// The time, or the epoch where it is not known.
pub open spec fn time_or_epoch(time: Option<Timestamp>) -> Timestamp {
    match time {
        Some(t) => t,
        None => Timestamp { secs: 0, nanos: 0 },
    }
}

/// The mode without the permission to write, for owner, group and others.
pub open spec fn read_only_mode(mode: u32) -> u32 {
    mode & !0o222u32
}

/// The number, or 0 if it is negative.
pub open spec fn at_least_zero(n: i64) -> int {
    if n < 0 {
        0
    } else {
        n as int
    }
}

/// The attributes of a file: those of the file underneath, with the inode, the kind and
/// the links that it has in the view, and without the permission to write. Device and
/// block size keep their lower 32 bits.
pub open spec fn file_attr(meta: Metadata, ino: u64, kind: FileType, nlink: u32) -> FileAttr {
    FileAttr {
        ino,
        size: meta.size,
        blocks: meta.blocks,
        atime: time_or_epoch(meta.accessed),
        mtime: time_or_epoch(meta.modified),
        ctime: SinceEpoch {
            secs: at_least_zero(meta.ctime) as u64,
            nanos: at_least_zero(meta.ctime_nsec) as u32,
        },
        crtime: time_or_epoch(meta.created),
        kind,
        perm: read_only_mode(meta.mode) as u16,
        nlink,
        uid: meta.uid,
        gid: meta.gid,
        rdev: meta.rdev as u32,
        blksize: meta.blksize as u32,
        flags: 0,
    }
}

fn or_epoch(time: Option<Timestamp>) -> (r: Timestamp)
    ensures
        r == time_or_epoch(time),
{
    match time {
        Some(t) => t,
        None => Timestamp { secs: 0, nanos: 0 },
    }
}

fn non_negative(n: i64) -> (r: u64)
    ensures
        r == at_least_zero(n),
{
    if n < 0 {
        0
    } else {
        n as u64
    }
}

/// Makes the attributes of a file in the view from those of the file underneath.
pub fn make_attr(meta: &Metadata, ino: u64, kind: FileType, nlink: u32) -> (r: FileAttr)
    ensures
        r == file_attr(*meta, ino, kind, nlink),
{
    FileAttr {
        ino,
        size: meta.size,
        blocks: meta.blocks,
        atime: or_epoch(meta.accessed),
        mtime: or_epoch(meta.modified),
        ctime: SinceEpoch {
            secs: non_negative(meta.ctime),
            nanos: #[verifier::truncate] (non_negative(meta.ctime_nsec) as u32),
        },
        crtime: or_epoch(meta.created),
        kind,
        perm: #[verifier::truncate] ((meta.mode & !0o222u32) as u16),
        nlink,
        uid: meta.uid,
        gid: meta.gid,
        rdev: #[verifier::truncate] (meta.rdev as u32),
        blksize: #[verifier::truncate] (meta.blksize as u32),
        flags: 0,
    }
}

/// Nobody may write: the attributes hold none of the three write permissions, and
/// otherwise the mode of the file underneath.
pub proof fn law_attr_is_read_only(meta: Metadata, ino: u64, kind: FileType, nlink: u32)
    ensures
        file_attr(meta, ino, kind, nlink).perm & 0o222u16 == 0,
        file_attr(meta, ino, kind, nlink).perm | 0o222u16 == (meta.mode as u16) | 0o222u16,
{
    let mode = meta.mode;
    assert(((mode & !0o222u32) as u16) & 0o222u16 == 0) by (bit_vector);
    assert(((mode & !0o222u32) as u16) | 0o222u16 == (mode as u16) | 0o222u16) by (bit_vector);
}

/// The attributes carry what is known of the file underneath, field by field, whatever the
/// other fields are: each time where it is known and the epoch where it is not, size, blocks
/// and owner as they are, the time of the last change if it is not before the epoch, and of
/// the device and the block size what fits.
pub proof fn law_attributes_are_those_underneath(
    meta: Metadata,
    ino: u64,
    kind: FileType,
    nlink: u32,
)
    ensures
        ({
            let attr = file_attr(meta, ino, kind, nlink);
            let epoch = Timestamp { secs: 0, nanos: 0 };
            &&& attr.ino == ino
            &&& attr.kind == kind
            &&& attr.nlink == nlink
            &&& attr.size == meta.size
            &&& attr.blocks == meta.blocks
            &&& attr.uid == meta.uid
            &&& attr.gid == meta.gid
            &&& meta.accessed matches Some(t) ==> attr.atime == t
            &&& meta.accessed is None ==> attr.atime == epoch
            &&& meta.modified matches Some(t) ==> attr.mtime == t
            &&& meta.modified is None ==> attr.mtime == epoch
            &&& meta.created matches Some(t) ==> attr.crtime == t
            &&& meta.created is None ==> attr.crtime == epoch
            &&& meta.ctime >= 0 ==> attr.ctime.secs == meta.ctime
            &&& meta.ctime < 0 ==> attr.ctime.secs == 0
            &&& meta.ctime_nsec >= 0 ==> attr.ctime.nanos == meta.ctime_nsec as u32
            &&& 0 <= meta.ctime_nsec <= u32::MAX ==> attr.ctime.nanos == meta.ctime_nsec
            &&& meta.ctime_nsec < 0 ==> attr.ctime.nanos == 0
            &&& attr.rdev == meta.rdev as u32
            &&& meta.rdev <= u32::MAX ==> attr.rdev == meta.rdev
            &&& attr.blksize == meta.blksize as u32
            &&& meta.blksize <= u32::MAX ==> attr.blksize == meta.blksize
            &&& attr.flags == 0
        }),
{
}

/// Each attribute depends on its own source alone: files that agree in a field, or in the
/// lower 16 bits of the mode, agree in the attribute, however they differ otherwise.
pub proof fn law_attributes_do_not_mix(
    a: Metadata,
    b: Metadata,
    ino: u64,
    kind: FileType,
    nlink: u32,
)
    ensures
        ({
            let x = file_attr(a, ino, kind, nlink);
            let y = file_attr(b, ino, kind, nlink);
            &&& a.accessed == b.accessed ==> x.atime == y.atime
            &&& a.modified == b.modified ==> x.mtime == y.mtime
            &&& a.created == b.created ==> x.crtime == y.crtime
            &&& a.ctime == b.ctime ==> x.ctime.secs == y.ctime.secs
            &&& a.ctime_nsec == b.ctime_nsec ==> x.ctime.nanos == y.ctime.nanos
            &&& a.size == b.size <==> x.size == y.size
            &&& a.blocks == b.blocks <==> x.blocks == y.blocks
            &&& a.uid == b.uid <==> x.uid == y.uid
            &&& a.gid == b.gid <==> x.gid == y.gid
            &&& a.mode as u16 == b.mode as u16 ==> x.perm == y.perm
            &&& a.rdev == b.rdev ==> x.rdev == y.rdev
            &&& a.blksize == b.blksize ==> x.blksize == y.blksize
        }),
{
    let m = a.mode;
    let n = b.mode;
    assert(m as u16 == n as u16 ==> (m & !0o222u32) as u16 == (n & !0o222u32) as u16)
        by (bit_vector);
}

} // verus!
