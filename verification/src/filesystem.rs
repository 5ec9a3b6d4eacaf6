//! The file system that is shown: what is answered to the requests of the kernel.

use vstd::prelude::*;
use vstd::slice::slice_to_vec;

use crate::attr::{file_attr, make_attr, FileAttr, Metadata};
use crate::filter::{file_views, FileType, ViewFile};
use crate::handles::{
    chosen_id, given_up, handle_key, issues, opened, released, takes_back, with_handle,
    HandleCache, HandleView, Opened, MAX_HANDLES,
};
use crate::ipc::{
    build_open_request, close_request, open_request, open_response, parse_open_response,
};
use crate::path::{absolute, has_parent, DOT};
use crate::tree::{
    below_parent, children_listed, generate_nodes, is_tree, is_tree_of, node_views, NodeView,
};

pub use crate::tree::{FileNode, NodeID};

verus! {

/// No such file or directory.
pub const ENOENT: i32 = 2;

/// Input or output error.
pub const EIO: i32 = 5;

/// The file system cannot be written to.
pub const EROFS: i32 = 30;

/// How a file is to be opened.
#[derive(Clone, Copy, Debug, PartialEq, Eq, Structural)]
pub enum AccessMode {
    ReadOnly,
    WriteOnly,
    ReadWrite,
}

/// The access mode in the flags of an open request: the lowest two bits. What neither asks
/// to write nor to read and write asks to read. These are the values of GNU/Linux.
pub open spec fn access_mode(flags: i32) -> AccessMode {
    if flags & 3 == 1 {
        AccessMode::WriteOnly
    } else if flags & 3 == 2 {
        AccessMode::ReadWrite
    } else {
        AccessMode::ReadOnly
    }
}

/// Reads the access mode from the flags.
fn acc_mode(flags: i32) -> (mode: AccessMode)
    ensures
        mode == access_mode(flags),
{
    let mode = flags & 3;
    if mode == 1 {
        AccessMode::WriteOnly
    } else if mode == 2 {
        AccessMode::ReadWrite
    } else {
        AccessMode::ReadOnly
    }
}

impl NodeID {
    /// The inode number of a node: inode numbers start at 1.
    pub fn ino(self) -> (r: u64)
        requires
            self.0 < u64::MAX,
        ensures
            r == self.0 + 1,
    {
        self.0 as u64 + 1
    }
}

/// The inode number is that of a node.
pub open spec fn valid_ino(t: Seq<NodeView>, ino: u64) -> bool {
    1 <= ino <= t.len()
}

/// The kind of a node.
pub open spec fn node_kind(node: NodeView) -> FileType {
    if node.is_dir {
        FileType::Dir
    } else {
        FileType::File
    }
}

/// How many of the nodes in a list are directories.
pub open spec fn count_dirs(t: Seq<NodeView>, ids: Seq<int>) -> nat
    decreases ids.len(),
{
    if ids.len() == 0 {
        0
    } else {
        count_dirs(t, ids.drop_last()) + if t[ids.last()].is_dir {
            1nat
        } else {
            0nat
        }
    }
}

/// The links to a node: for a directory its name, its `.`, and the `..` of each directory
/// in it, modulo 2 to the 32nd; for a file its name.
pub open spec fn links(t: Seq<NodeView>, n: int) -> u32 {
    if t[n].is_dir {
        ((2 + count_dirs(t, t[n].children)) % 0x1_0000_0000) as u32
    } else {
        1
    }
}

/// The attributes of a node. Those of the root come from the directory that the view is
/// mounted on, as it was before; those of other nodes from the file underneath, and there
/// are none where that cannot be had.
pub open spec fn node_attr(
    t: Seq<NodeView>,
    root: FileAttr,
    id: NodeID,
    meta: Option<Metadata>,
) -> Option<FileAttr> {
    let n = id.0 as int;
    if n >= t.len() {
        None
    } else if n == 0 {
        Some(FileAttr { nlink: links(t, 0), ..root })
    } else {
        match meta {
            None => None,
            Some(m) => Some(file_attr(m, (n + 1) as u64, node_kind(t[n]), links(t, n))),
        }
    }
}

/// `c` is the node of that name in the directory `n`.
pub open spec fn is_entry(t: Seq<NodeView>, n: int, name: Seq<u8>, c: int) -> bool {
    t[n].children.contains(c) && t[c].name == name
}

/// An entry of a directory listing.
#[derive(Debug)]
pub struct DirEntry {
    pub ino: u64,
    pub next: u64,
    pub kind: FileType,
    pub name: Vec<u8>,
}

/// An entry of a directory listing: the node, the offset of the entry behind it, the kind
/// and the name.
pub struct EntryView {
    pub node: int,
    pub next: int,
    pub kind: FileType,
    pub name: Seq<u8>,
}

impl View for DirEntry {
    type V = EntryView;

    open spec fn view(&self) -> EntryView {
        EntryView {
            node: self.ino - 1,
            next: self.next as int,
            kind: self.kind,
            name: self.name@,
        }
    }
}

/// The entries of a listing, as values.
pub open spec fn entry_views(entries: Seq<DirEntry>) -> Seq<EntryView> {
    Seq::new(entries.len(), |i: int| entries[i]@)
}

/// The entry at an offset of the listing of node `n`: first `.`, then `..`, then the
/// children in order.
pub open spec fn dir_entry(t: Seq<NodeView>, n: int, at: int) -> EntryView {
    if at == 0 {
        EntryView { node: n, next: 1, kind: FileType::Dir, name: seq![DOT] }
    } else if at == 1 {
        EntryView { node: t[n].parent, next: 2, kind: FileType::Dir, name: seq![DOT, DOT] }
    } else {
        let c = t[n].children[at - 2];
        EntryView { node: c, next: at + 1, kind: node_kind(t[c]), name: t[c].name }
    }
}

/// The entries of the listing of node `n` from the offset `from` up to `to`.
pub open spec fn dir_entries_upto(t: Seq<NodeView>, n: int, from: int, to: int) -> Seq<EntryView> {
    Seq::new(
        if from < to {
            (to - from) as nat
        } else {
            0
        },
        |i: int| dir_entry(t, n, from + i),
    )
}

/// The entries of the listing of node `n` from an offset on.
pub open spec fn dir_entries(t: Seq<NodeView>, n: int, offset: int) -> Seq<EntryView> {
    dir_entries_upto(t, n, offset, t[n].children.len() as int + 2)
}

/// What the file system as a whole is said to have.
#[derive(Clone, Copy, Debug, PartialEq, Eq, Structural)]
pub struct StatFs {
    pub blocks: u64,
    pub bfree: u64,
    pub bavail: u64,
    pub files: u64,
    pub ffree: u64,
    pub bsize: u32,
    pub namelen: u32,
    pub frsize: u32,
}

/// What is to be done about a request to open a file.
pub enum OpenStep {
    /// Answer with this error number.
    Fail(i32),
    /// Answer with this handle and backing id.
    Done(Opened),
    /// Send this message to the server, and go on with its answer.
    Ask { node_id: NodeID, msg: Vec<u8> },
}

/// What came of asking the server for a backing id.
pub enum OpenAnswer {
    /// The request could not be sent.
    NotSent,
    /// No answer could be received.
    NotReceived,
    /// An answer of this length was received into the buffer.
    Received { len: usize, buf: [u8; 5] },
}

/// What an answer of the server comes to: a backing id, or an error number to answer
/// with. What is no proper answer counts as `EIO`.
pub open spec fn answered_id(answer: OpenAnswer) -> Result<u32, i32> {
    match answer {
        OpenAnswer::NotSent => Err(EIO),
        OpenAnswer::NotReceived => Err(EIO),
        OpenAnswer::Received { len, buf } => if len != 5 {
            Err(EIO)
        } else {
            match open_response(buf@) {
                Ok(id) => Ok(id),
                Err(errno) => Err(errno as i32),
            }
        },
    }
}

impl OpenAnswer {
    /// What the answer comes to: a backing id, or an error number.
    pub fn id(&self) -> (r: Result<u32, i32>)
        ensures
            r == answered_id(*self),
    {
        match self {
            OpenAnswer::NotSent => Err(EIO),
            OpenAnswer::NotReceived => Err(EIO),
            OpenAnswer::Received { len, buf } => {
                if *len != 5 {
                    return Err(EIO);
                }
                match parse_open_response(*buf) {
                    Ok(id) => Ok(id),
                    Err(errno) => Err(errno as i32),
                }
            },
        }
    }
}

/// The file can be opened, and has a backing id already.
pub open spec fn is_open_already(
    t: Seq<NodeView>,
    v: HandleView,
    ino: u64,
    flags: i32,
) -> bool {
    &&& access_mode(flags) == AccessMode::ReadOnly
    &&& valid_ino(t, ino)
    &&& v.nodes.contains_key((ino - 1) as usize)
}

/// The read-only view of a set of files.
pub struct ViewFS {
    nodes: Vec<FileNode>,
    root_attr: FileAttr,
}

impl ViewFS {
    /// The nodes that are shown.
    pub closed spec fn tree(self) -> Seq<NodeView> {
        node_views(self.nodes@)
    }

    /// The attributes of the root, but for its links.
    pub closed spec fn root(self) -> FileAttr {
        self.root_attr
    }

    /// What holds of every view: the nodes form a tree, which fits into memory, and the
    /// attributes of the root are those of a directory with the first inode number.
    pub open spec fn well_formed(self) -> bool {
        &&& is_tree(self.tree())
        &&& self.tree().len() <= usize::MAX
        &&& self.root().ino == 1
        &&& self.root().kind == FileType::Dir
    }

    #[verifier::type_invariant]
    spec fn always_well_formed(self) -> bool {
        self.well_formed()
    }

    /// The view of the files, to be mounted on a directory with the given metadata.
    pub fn new(files: Vec<ViewFile>, mount: &Metadata) -> (r: ViewFS)
        requires
            forall|i: int|
                0 <= i < files@.len() && absolute((#[trigger] files@[i]).path@) ==> !has_parent(
                    files@[i].path@,
                ),
        ensures
            r.well_formed(),
            is_tree_of(r.tree(), file_views(files@)),
            r.root() == file_attr(*mount, 1, FileType::Dir, 2),
    {
        let root_attr = make_attr(mount, NodeID(0).ino(), FileType::Dir, 2);
        let nodes = generate_nodes(&files);
        assert(node_views(nodes@).len() == nodes.len());
        ViewFS { nodes, root_attr }
    }

    /// The node with a number.
    pub fn get_node(&self, id: NodeID) -> (r: Option<&FileNode>)
        ensures
            match r {
                Some(node) => id.0 < self.tree().len() && node@ == self.tree()[id.0 as int],
                None => id.0 >= self.tree().len(),
            },
            self.well_formed(),
    {
        proof {
            use_type_invariant(self);
        }
        if id.0 < self.nodes.len() {
            Some(&self.nodes[id.0])
        } else {
            None
        }
    }

    /// The kind of a node.
    pub fn node_filetype(&self, node: &FileNode) -> (r: FileType)
        ensures
            r == node_kind(node@),
    {
        if node.is_dir {
            FileType::Dir
        } else {
            FileType::File
        }
    }

    /// The node that has an inode number.
    pub fn get_inode(&self, inode: u64) -> (r: Option<NodeID>)
        ensures
            match r {
                Some(id) => valid_ino(self.tree(), inode) && id.0 == inode - 1,
                None => !valid_ino(self.tree(), inode),
            },
            self.well_formed(),
    {
        proof {
            use_type_invariant(self);
        }
        if inode == 0 {
            return None;
        }
        if inode <= self.nodes.len() as u64 {
            Some(NodeID((inode - 1) as usize))
        } else {
            None
        }
    }

    /// The node that has an inode number, and its number in the list of nodes.
    pub fn get_node_inode(&self, inode: u64) -> (r: Option<(NodeID, &FileNode)>)
        ensures
            match r {
                Some((id, node)) => {
                    &&& valid_ino(self.tree(), inode)
                    &&& id.0 == inode - 1
                    &&& node@ == self.tree()[inode - 1]
                },
                None => !valid_ino(self.tree(), inode),
            },
            self.well_formed(),
    {
        match self.get_inode(inode) {
            Some(id) => match self.get_node(id) {
                Some(node) => Some((id, node)),
                None => None,
            },
            None => None,
        }
    }

    /// The links to a node.
    fn count_links(&self, id: NodeID) -> (r: u32)
        requires
            id.0 < self.tree().len(),
        ensures
            r == links(self.tree(), id.0 as int),
    {
        let ghost t = self.tree();
        proof {
            use_type_invariant(self);
            assert(children_listed(t, id.0 as int));
        }
        let node = &self.nodes[id.0];
        assert(node@ == t[id.0 as int]);
        if !node.is_dir {
            return 1;
        }
        let ghost c = t[id.0 as int].children;
        let mut dirs: u64 = 0;
        let mut i: usize = 0;
        assert(c.take(0) =~= Seq::empty());
        while i < node.children.len()
            invariant
                i <= node.children@.len(),
                t == self.tree(),
                node@ == t[id.0 as int],
                c == node@.children,
                forall|k: int| 0 <= k < c.len() ==> 0 <= #[trigger] c[k] < t.len(),
                dirs == count_dirs(t, c.take(i as int)),
                dirs <= i,
            decreases node.children@.len() - i,
        {
            let child = node.children[i];
            assert(c[i as int] == child.0);
            assert(self.nodes@[child.0 as int]@ == t[child.0 as int]);
            proof {
                assert(c.take(i + 1).drop_last() =~= c.take(i as int));
                assert(c.take(i + 1).last() == child.0);
            }
            if self.nodes[child.0].is_dir {
                dirs = dirs + 1;
            }
            i = i + 1;
        }
        assert(c.take(i as int) =~= c);
        ((dirs % 0x1_0000_0000 + 2) % 0x1_0000_0000) as u32
    }

    /// The attributes of a node, given what the underlying file system says of its path.
    /// For the root that is not asked.
    pub fn get_file_attr(&self, id: NodeID, meta: Option<&Metadata>) -> (r: Option<FileAttr>)
        ensures
            r == node_attr(
                self.tree(),
                self.root(),
                id,
                match meta {
                    Some(m) => Some(*m),
                    None => None,
                },
            ),
            self.well_formed(),
    {
        proof {
            use_type_invariant(self);
        }
        let node = match self.get_node(id) {
            Some(node) => node,
            None => {
                return None;
            },
        };
        let nlink = self.count_links(id);
        if id.0 == 0 {
            let mut attr = self.root_attr;
            attr.nlink = nlink;
            return Some(attr);
        }
        assert(id.0 < self.nodes.len());
        match meta {
            Some(m) => Some(make_attr(m, id.ino(), self.node_filetype(node), nlink)),
            None => None,
        }
    }

    /// What the file system as a whole has: as many files as there are nodes, and no room.
    pub fn statfs(&self) -> (r: StatFs)
        ensures
            r == (StatFs {
                blocks: 0,
                bfree: 0,
                bavail: 0,
                files: self.tree().len() as u64,
                ffree: 0,
                bsize: 4096,
                namelen: 255,
                frsize: 4096,
            }),
    {
        StatFs {
            blocks: 0,
            bfree: 0,
            bavail: 0,
            files: self.nodes.len() as u64,
            ffree: 0,
            bsize: 4096,
            namelen: 255,
            frsize: 4096,
        }
    }

    /// The node of a name in a directory, or `ENOENT`.
    pub fn lookup(&self, parent: u64, name: &[u8]) -> (r: Result<NodeID, i32>)
        ensures
            match r {
                Ok(id) => valid_ino(self.tree(), parent) && is_entry(
                    self.tree(),
                    parent - 1,
                    name@,
                    id.0 as int,
                ),
                Err(e) => e == ENOENT && (valid_ino(self.tree(), parent) ==> forall|c: int|
                    !#[trigger] is_entry(self.tree(), parent - 1, name@, c)),
            },
            self.well_formed(),
    {
        let ghost t = self.tree();
        proof {
            use_type_invariant(self);
        }
        let (parent_id, node) = match self.get_node_inode(parent) {
            Some(found) => found,
            None => {
                return Err(ENOENT);
            },
        };
        let ghost p = parent_id.0 as int;
        let ghost c = t[p].children;
        proof {
            assert(children_listed(t, p));
        }
        let mut i: usize = 0;
        while i < node.children.len()
            invariant
                i <= node.children@.len(),
                t == self.tree(),
                self.well_formed(),
                valid_ino(t, parent),
                p == parent - 1,
                node@ == t[p],
                c == t[p].children,
                forall|k: int| 0 <= k < c.len() ==> 0 <= #[trigger] c[k] < t.len(),
                forall|k: int| 0 <= k < i ==> t[#[trigger] c[k]].name != name@,
            decreases node.children@.len() - i,
        {
            let id = node.children[i];
            assert(c[i as int] == id.0);
            assert(self.nodes@[id.0 as int]@ == t[id.0 as int]);
            if same_bytes(self.nodes[id.0].name.as_slice(), name) {
                assert(c.contains(id.0 as int));
                return Ok(id);
            }
            i = i + 1;
        }
        proof {
            assert forall|k: int| !#[trigger] is_entry(t, p, name@, k) by {
                if is_entry(t, p, name@, k) {
                    let j = choose|j: int| 0 <= j < c.len() && c[j] == k;
                    assert(t[c[j]].name != name@);
                }
            }
        }
        Err(ENOENT)
    }

    /// The node that attributes are asked of, or `ENOENT`.
    pub fn getattr(&self, ino: u64) -> (r: Result<NodeID, i32>)
        ensures
            match r {
                Ok(id) => valid_ino(self.tree(), ino) && id.0 == ino - 1,
                Err(e) => e == ENOENT && !valid_ino(self.tree(), ino),
            },
            self.well_formed(),
    {
        match self.get_inode(ino) {
            Some(id) => Ok(id),
            None => Err(ENOENT),
        }
    }

    /// The entries of a directory from an offset on, or `ENOENT`. Each comes with the
    /// offset of the one behind it.
    pub fn readdir(&self, ino: u64, offset: u64) -> (r: Result<Vec<DirEntry>, i32>)
        ensures
            match r {
                Ok(entries) => valid_ino(self.tree(), ino) && entry_views(entries@) == dir_entries(
                    self.tree(),
                    ino - 1,
                    offset as int,
                ),
                Err(e) => e == ENOENT && !valid_ino(self.tree(), ino),
            },
            self.well_formed(),
    {
        let ghost t = self.tree();
        proof {
            use_type_invariant(self);
        }
        let (dir_id, node) = match self.get_node_inode(ino) {
            Some(found) => found,
            None => {
                return Err(ENOENT);
            },
        };
        let ghost n = dir_id.0 as int;
        let ghost c = t[n].children;
        proof {
            assert(children_listed(t, n));
            if n > 0 {
                assert(below_parent(t, n));
            }
        }
        assert(self.nodes.len() == t.len());
        let dot = [DOT];
        let dot_dot = [DOT, DOT];
        assert(dot@ =~= seq![DOT]);
        assert(dot_dot@ =~= seq![DOT, DOT]);
        let mut all: Vec<(NodeID, FileType, &[u8])> = Vec::new();
        all.push((dir_id, FileType::Dir, &dot));
        all.push((node.parent, FileType::Dir, &dot_dot));
        let mut i: usize = 0;
        while i < node.children.len()
            invariant
                i <= node.children@.len(),
                t == self.tree(),
                node@ == t[n],
                c == t[n].children,
                forall|k: int| 0 <= k < c.len() ==> 0 <= #[trigger] c[k] < t.len(),
                all@.len() == i + 2,
                forall|k: int|
                    0 <= k < i + 2 ==> {
                        let e = dir_entry(t, n, k);
                        &&& (#[trigger] all@[k]).0.0 == e.node
                        &&& all@[k].1 == e.kind
                        &&& all@[k].2@ == e.name
                    },
            decreases node.children@.len() - i,
        {
            let id = node.children[i];
            assert(c[i as int] == id.0);
            assert(self.nodes@[id.0 as int]@ == t[id.0 as int]);
            let child = &self.nodes[id.0];
            all.push((id, self.node_filetype(child), child.name.as_slice()));
            i = i + 1;
        }
        let mut entries: Vec<DirEntry> = Vec::new();
        let len = all.len();
        let mut at: u64 = offset;
        assert(entry_views(entries@) =~= dir_entries_upto(t, n, offset as int, offset as int));
        while at < len as u64
            invariant
                offset <= at,
                offset <= len ==> at <= len,
                offset > len ==> at == offset,
                t == self.tree(),
                self.nodes.len() == t.len(),
                valid_ino(t, ino),
                n == ino - 1,
                is_tree(t),
                c == t[n].children,
                len == all@.len(),
                len == c.len() + 2,
                forall|k: int|
                    0 <= k < len ==> {
                        let e = dir_entry(t, n, k);
                        &&& (#[trigger] all@[k]).0.0 == e.node
                        &&& all@[k].1 == e.kind
                        &&& all@[k].2@ == e.name
                    },
                entry_views(entries@) == dir_entries_upto(t, n, offset as int, at as int),
            decreases len - at,
        {
            let ghost before = entry_views(entries@);
            let item = all[at as usize];
            proof {
                assert(children_listed(t, n));
                if n > 0 {
                    assert(below_parent(t, n));
                }
                if at >= 2 {
                    assert(0 < c[at - 2] < t.len());
                }
            }
            let entry = DirEntry {
                ino: item.0.ino(),
                next: at + 1,
                kind: item.1,
                name: slice_to_vec(item.2),
            };
            entries.push(entry);
            assert(entry_views(entries@) =~= before.push(entry@));
            assert(entry_views(entries@) =~= dir_entries_upto(t, n, offset as int, at + 1));
            at = at + 1;
        }
        assert(entry_views(entries@) =~= dir_entries(t, n, offset as int));
        Ok(entries)
    }

    /// The attributes to answer with, or `EIO` where there are none.
    pub fn attr_reply(&self, id: NodeID, meta: Option<&Metadata>) -> (r: Result<FileAttr, i32>)
        ensures
            r == match node_attr(
                self.tree(),
                self.root(),
                id,
                match meta {
                    Some(m) => Some(*m),
                    None => None,
                },
            ) {
                Some(attr) => Ok(attr),
                None => Err(EIO),
            },
            self.well_formed(),
    {
        match self.get_file_attr(id, meta) {
            Some(attr) => Ok(attr),
            None => Err(EIO),
        }
    }

    /// Whether a file can be opened and has a backing id already, so that to open it takes
    /// just a further handle.
    pub fn is_open(&self, cache: &HandleCache, ino: u64, flags: i32) -> (r: bool)
        ensures
            r == is_open_already(self.tree(), cache@, ino, flags),
    {
        if acc_mode(flags) != AccessMode::ReadOnly {
            return false;
        }
        match self.get_inode(ino) {
            Some(node_id) => cache.has_node(node_id),
            None => false,
        }
    }

    /// Starts to open a file. To open it for writing fails with `EROFS`, and a file that
    /// there is not with `ENOENT`. A file that has a backing id gets a further handle for
    /// it; for another one the server has to be asked.
    pub fn open(&self, cache: &mut HandleCache, ino: u64, flags: i32) -> (r: OpenStep)
        requires
            is_open_already(self.tree(), old(cache)@, ino, flags) ==> old(cache)@.handles.len()
                < MAX_HANDLES,
        ensures
            match r {
                OpenStep::Fail(e) => {
                    &&& e == EROFS <==> access_mode(flags) != AccessMode::ReadOnly
                    &&& e == ENOENT <==> access_mode(flags) == AccessMode::ReadOnly && !valid_ino(
                        self.tree(),
                        ino,
                    )
                    &&& e == EROFS || e == ENOENT
                    &&& *final(cache) == *old(cache)
                },
                OpenStep::Done(o) => {
                    &&& is_open_already(self.tree(), old(cache)@, ino, flags)
                    &&& o.raw_id == old(cache)@.nodes[(ino - 1) as usize]
                    &&& o.close is None
                    &&& !old(cache)@.handles.contains_key(o.fh)
                    &&& handle_key(o.fh) == o.fh
                    &&& final(cache)@ == with_handle(old(cache)@, o.fh, o.raw_id)
                    &&& issues(old(cache).issued(), final(cache).issued(), o.fh)
                },
                OpenStep::Ask { node_id, msg } => {
                    &&& access_mode(flags) == AccessMode::ReadOnly
                    &&& valid_ino(self.tree(), ino)
                    &&& !is_open_already(self.tree(), old(cache)@, ino, flags)
                    &&& node_id.0 == ino - 1
                    &&& msg@ == open_request(self.tree()[ino - 1].path)
                    &&& *final(cache) == *old(cache)
                },
            },
            self.well_formed(),
    {
        proof {
            use_type_invariant(self);
        }
        if acc_mode(flags) != AccessMode::ReadOnly {
            return OpenStep::Fail(EROFS);
        }
        let (node_id, node) = match self.get_node_inode(ino) {
            Some(found) => found,
            None => {
                return OpenStep::Fail(ENOENT);
            },
        };
        match cache.open_cached(node_id) {
            Some(o) => OpenStep::Done(o),
            None => OpenStep::Ask { node_id, msg: build_open_request(node.path.as_slice()) },
        }
    }

    /// Opens a file with the answer of the server. Where it gave a backing id, and the file
    /// has got another one in the meantime, that one is used and the new one given up.
    pub fn finish_open(
        &self,
        cache: &mut HandleCache,
        node_id: NodeID,
        answer: OpenAnswer,
    ) -> (r: Result<Opened, i32>)
        requires
            answered_id(answer) is Ok ==> old(cache)@.handles.len() < MAX_HANDLES,
        ensures
            match r {
                Ok(o) => {
                    &&& answered_id(answer) is Ok
                    &&& o.raw_id == chosen_id(old(cache)@, node_id.0, answered_id(answer)->Ok_0)
                    &&& match o.close {
                        Some(msg) => old(cache)@.nodes.contains_key(node_id.0) && msg@
                            == close_request(answered_id(answer)->Ok_0),
                        None => !old(cache)@.nodes.contains_key(node_id.0),
                    }
                    &&& !old(cache)@.handles.contains_key(o.fh)
                    &&& handle_key(o.fh) == o.fh
                    &&& final(cache)@ == opened(
                        old(cache)@,
                        node_id.0,
                        answered_id(answer)->Ok_0,
                        o.fh,
                    )
                    &&& issues(old(cache).issued(), final(cache).issued(), o.fh)
                },
                Err(e) => {
                    &&& answered_id(answer) == Err::<u32, i32>(e)
                    &&& *final(cache) == *old(cache)
                },
            },
    {
        match answer.id() {
            Ok(new_id) => Ok(cache.open_with(node_id, new_id)),
            Err(e) => Err(e),
        }
    }

    /// Releases a handle, or fails with `ENOENT` where there is no such file. The result is
    /// what to send to the server: a request to close the backing id, where no handle is
    /// left that has it.
    pub fn release(&self, cache: &mut HandleCache, ino: u64, fh: u64) -> (r: Result<
        Option<[u8; 5]>,
        i32,
    >)
        ensures
            match r {
                Ok(close) => {
                    &&& valid_ino(self.tree(), ino)
                    &&& final(cache)@ == released(old(cache)@, (ino - 1) as usize, fh)
                    &&& takes_back(old(cache)@, old(cache).issued(), final(cache).issued(), fh)
                    &&& match close {
                        Some(msg) => given_up(old(cache)@, fh) is Some && msg@ == close_request(
                            given_up(old(cache)@, fh)->0,
                        ),
                        None => given_up(old(cache)@, fh) is None,
                    }
                },
                Err(e) => {
                    &&& e == ENOENT
                    &&& !valid_ino(self.tree(), ino)
                    &&& *final(cache) == *old(cache)
                },
            },
            self.well_formed(),
    {
        match self.get_inode(ino) {
            Some(node_id) => Ok(cache.release(node_id, fh)),
            None => Err(ENOENT),
        }
    }

    /// What every request to change something is answered with.
    pub fn refuse_write(&self) -> (e: i32)
        ensures
            e == EROFS,
    {
        EROFS
    }
}

/// Whether two byte strings are equal.
fn same_bytes(a: &[u8], b: &[u8]) -> (r: bool)
    ensures
        r == (a@ == b@),
{
    if a.len() != b.len() {
        return false;
    }
    let mut i: usize = 0;
    while i < a.len()
        invariant
            i <= a@.len(),
            a@.len() == b@.len(),
            forall|k: int| 0 <= k < i ==> a@[k] == b@[k],
        decreases a@.len() - i,
    {
        if a[i] != b[i] {
            return false;
        }
        i = i + 1;
    }
    assert(a@ =~= b@);
    true
}

} // verus!
