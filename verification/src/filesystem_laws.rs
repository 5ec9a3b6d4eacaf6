//! How the answers to different requests go together.

use vstd::prelude::*;

use crate::attr::{file_attr, FileAttr, Metadata};
use crate::filesystem::{
    access_mode, answered_id, count_dirs, dir_entries, dir_entry, entry_views, is_entry,
    is_open_already, links, node_attr, node_kind, valid_ino, AccessMode, DirEntry, OpenAnswer, EIO,
};
use crate::filter::FileType;
use crate::handles::{chosen_id, given_up, opened, released, HandleView};
use crate::path::{is_name, DOT};
use crate::tree::{children_listed, is_tree, NodeID, NodeView};
use crate::tree_laws::{
    law_children_are_all_that_lie_below, law_names_are_file_names, law_parents_list_their_children,
    law_sibling_names_are_distinct,
};

verus! {

/// A node is found under its inode number.
pub proof fn law_inode_round_trip(t: Seq<NodeView>, id: NodeID)
    requires
        id.0 < t.len() <= u64::MAX,
    ensures
        valid_ino(t, (id.0 + 1) as u64),
        (id.0 + 1) as u64 - 1 == id.0,
{
}

/// A listing can be taken up again behind any of its entries: what follows is what would
/// have followed.
pub proof fn law_listing_resumes(t: Seq<NodeView>, n: int, offset: int, k: int)
    requires
        0 <= offset,
        0 <= k < dir_entries(t, n, offset).len(),
    ensures
        dir_entries(t, n, dir_entries(t, n, offset)[k].next) == dir_entries(t, n, offset).skip(
            k + 1,
        ),
{
    let entries = dir_entries(t, n, offset);
    assert(entries[k].next == offset + k + 1);
    assert(dir_entries(t, n, entries[k].next) =~= entries.skip(k + 1));
}

/// A listing behind its last entry is empty.
pub proof fn law_listing_ends(t: Seq<NodeView>, n: int, offset: int)
    requires
        t[n].children.len() + 2 <= offset,
    ensures
        dir_entries(t, n, offset).len() == 0,
{
}

/// What a directory lists, a lookup finds: under the name of an entry the node of that
/// entry, and no other. This is said of all entries but `.` and `..`.
pub proof fn law_listed_entries_are_found(t: Seq<NodeView>, n: int, at: int)
    requires
        is_tree(t),
        0 <= n < t.len(),
        2 <= at < t[n].children.len() + 2,
    ensures
        is_entry(t, n, dir_entry(t, n, at).name, dir_entry(t, n, at).node),
        forall|c: int| #[trigger]
            is_entry(t, n, dir_entry(t, n, at).name, c) ==> c == dir_entry(t, n, at).node,
{
    let e = dir_entry(t, n, at);
    let children = t[n].children;
    assert(children_listed(t, n));
    assert(children[at - 2] == e.node);
    assert forall|c: int| #[trigger] is_entry(t, n, e.name, c) implies c == e.node by {
        let k = choose|k: int| 0 <= k < children.len() && children[k] == c;
        assert(0 < children[k] < t.len());
        law_sibling_names_are_distinct(t, c, e.node);
    }
}

/// What a lookup finds, the directory lists.
pub proof fn law_found_entries_are_listed(t: Seq<NodeView>, n: int, name: Seq<u8>, c: int)
    requires
        is_entry(t, n, name, c),
    ensures
        exists|at: int|
            2 <= at < t[n].children.len() + 2 && #[trigger] dir_entry(t, n, at).node == c
                && dir_entry(t, n, at).name == name,
{
    let children = t[n].children;
    let k = choose|k: int| 0 <= k < children.len() && children[k] == c;
    assert(dir_entry(t, n, k + 2).node == c);
}

/// A directory lists no name twice.
pub proof fn law_listed_names_are_distinct(t: Seq<NodeView>, n: int, i: int, j: int)
    requires
        is_tree(t),
        0 <= n < t.len(),
        0 <= i < j < t[n].children.len() + 2,
    ensures
        dir_entry(t, n, i).name != dir_entry(t, n, j).name,
{
    let children = t[n].children;
    assert(children_listed(t, n));
    if j < 2 {
        assert(seq![DOT].len() != seq![DOT, DOT].len());
    } else {
        let c = children[j - 2];
        assert(0 < c < t.len());
        law_names_are_file_names(t, c);
        assert(is_name(dir_entry(t, n, j).name));
        if i >= 2 {
            let b = children[i - 2];
            assert(0 < b < t.len());
            assert(b < c);
            if t[b].name == t[c].name {
                law_sibling_names_are_distinct(t, b, c);
            }
        }
    }
}

/// The entry `..` of a directory leads to the directory that lists it; that of the root
/// leads to the root.
pub proof fn law_parent_entry_leads_back(t: Seq<NodeView>, n: int, at: int)
    requires
        is_tree(t),
        0 <= n < t.len(),
        2 <= at < t[n].children.len() + 2,
    ensures
        dir_entry(t, dir_entry(t, n, at).node, 1).node == n,
        dir_entry(t, 0, 1).node == 0,
{
    assert(children_listed(t, n));
    assert(t[n].children[at - 2] == dir_entry(t, n, at).node);
}

/// The attributes of an entry say what the listing says: the same inode and the same kind.
pub proof fn law_attributes_agree_with_listing(
    t: Seq<NodeView>,
    root: FileAttr,
    n: int,
    at: int,
    id: NodeID,
    meta: Metadata,
)
    requires
        is_tree(t),
        t.len() <= u64::MAX,
        0 <= n < t.len(),
        2 <= at < t[n].children.len() + 2,
        id.0 == dir_entry(t, n, at).node,
    ensures
        node_attr(t, root, id, Some(meta)) matches Some(attr) && attr.ino - 1 == dir_entry(
            t,
            n,
            at,
        ).node && attr.kind == dir_entry(t, n, at).kind && attr.nlink == links(t, id.0 as int),
{
    assert(children_listed(t, n));
    assert(0 < t[n].children[at - 2] < t.len());
}

/// Attributes are those of the node that was asked for: its inode, its kind and its links.
/// For the root this rests on what holds of the root of every view.
pub proof fn law_attributes_are_of_the_node(
    t: Seq<NodeView>,
    root: FileAttr,
    id: NodeID,
    meta: Option<Metadata>,
)
    requires
        is_tree(t),
        root.ino == 1,
        root.kind == FileType::Dir,
        id.0 < t.len() <= u64::MAX,
    ensures
        node_attr(t, root, id, meta) matches Some(attr) ==> {
            &&& attr.ino == id.0 + 1
            &&& attr.kind == node_kind(t[id.0 as int])
            &&& attr.nlink == links(t, id.0 as int)
        },
        node_attr(t, root, id, meta) is None <==> id.0 != 0 && meta is None,
{
}

/// A file that is open is opened again without asking the server: by the backing id that it
/// has.
pub proof fn law_open_file_needs_no_server(
    t: Seq<NodeView>,
    v: HandleView,
    ino: u64,
    flags: i32,
    new_id: u32,
    fh: u64,
)
    requires
        valid_ino(t, ino),
        t.len() <= usize::MAX,
        access_mode(flags) == AccessMode::ReadOnly,
    ensures
        is_open_already(t, opened(v, (ino - 1) as usize, new_id, fh), ino, flags),
        opened(v, (ino - 1) as usize, new_id, fh).nodes[(ino - 1) as usize] == chosen_id(
            v,
            (ino - 1) as usize,
            new_id,
        ),
{
}

/// Once its last handle is released, a file is no longer open: the next time the server is
/// asked again.
pub proof fn law_closed_file_needs_the_server(
    t: Seq<NodeView>,
    v: HandleView,
    ino: u64,
    flags: i32,
    fh: u64,
)
    requires
        given_up(v, fh) is Some,
    ensures
        !is_open_already(t, released(v, (ino - 1) as usize, fh), ino, flags),
{
}

/// An inode number is that of a node just if it is between 1 and the number of nodes.
pub proof fn law_inodes_count_from_one(t: Seq<NodeView>, ino: u64)
    ensures
        valid_ino(t, ino) <==> 1 <= ino && ino <= t.len(),
{
}

/// A listing is complete: from any offset on it holds every entry that there is, first the
/// directory itself, then its parent, then each child with its own name and type, and each
/// entry says where to go on.
pub proof fn law_listing_is_complete(t: Seq<NodeView>, n: int, offset: int)
    requires
        0 <= offset,
    ensures
        dir_entries(t, n, offset).len() == if offset < t[n].children.len() + 2 {
            t[n].children.len() + 2 - offset
        } else {
            0
        },
        forall|i: int|
            0 <= i < dir_entries(t, n, offset).len() ==> {
                let e = #[trigger] dir_entries(t, n, offset)[i];
                let at = offset + i;
                &&& e.next == at + 1
                &&& at == 0 ==> e.node == n && e.name == seq![DOT] && e.kind == FileType::Dir
                &&& at == 1 ==> e.node == t[n].parent && e.name == seq![DOT, DOT] && e.kind
                    == FileType::Dir
                &&& at >= 2 ==> {
                    let c = t[n].children[at - 2];
                    &&& e.node == c
                    &&& e.name == t[c].name
                    &&& e.kind == FileType::Dir <==> t[c].is_dir
                }
            },
{
}

/// Every node but the root is in the listing of its parent, under its name and with its type.
pub proof fn law_every_node_is_listed(t: Seq<NodeView>, c: int)
    requires
        is_tree(t),
        0 < c < t.len(),
    ensures
        exists|i: int|
            0 <= i < dir_entries(t, t[c].parent, 0).len() && (#[trigger] dir_entries(
                t,
                t[c].parent,
                0,
            )[i]).node == c && dir_entries(t, t[c].parent, 0)[i].name == t[c].name && (dir_entries(
                t,
                t[c].parent,
                0,
            )[i].kind == FileType::Dir <==> t[c].is_dir),
{
    law_parents_list_their_children(t, c);
    let n = t[c].parent;
    let k = choose|k: int| 0 <= k < t[n].children.len() && t[n].children[k] == c;
    law_listing_is_complete(t, n, 0);
    assert(dir_entries(t, n, 0)[k + 2].node == c);
}

/// What a lookup finds is in the listing of the directory, under the same name.
pub proof fn law_found_node_is_in_the_listing(t: Seq<NodeView>, n: int, name: Seq<u8>, c: int)
    requires
        is_entry(t, n, name, c),
    ensures
        exists|i: int|
            0 <= i < dir_entries(t, n, 0).len() && (#[trigger] dir_entries(t, n, 0)[i]).node == c
                && dir_entries(t, n, 0)[i].name == name,
{
    let k = choose|k: int| 0 <= k < t[n].children.len() && t[n].children[k] == c;
    law_listing_is_complete(t, n, 0);
    assert(dir_entries(t, n, 0)[k + 2].node == c);
}

/// A lookup goes by the name, byte for byte, among the children of the directory and nothing
/// else: every node is found under its own name in its parent, and under no other.
pub proof fn law_lookup_goes_by_the_exact_name(t: Seq<NodeView>, n: int, name: Seq<u8>, c: int)
    requires
        is_tree(t),
        0 <= n < t.len(),
    ensures
        0 < c < t.len() && t[c].parent == n ==> is_entry(t, n, t[c].name, c),
        is_entry(t, n, name, c) ==> 0 < c < t.len() && t[c].parent == n && t[c].name == name,
{
    law_children_are_all_that_lie_below(t, n);
    assert(t[n].children.contains(c) <==> 0 < c < t.len() && t[c].parent == n);
}

/// The directories in a list are as many as the filtered list has items.
proof fn lemma_dirs_counted(t: Seq<NodeView>, ids: Seq<int>)
    ensures
        count_dirs(t, ids) == ids.filter(|c: int| t[c].is_dir).len(),
    decreases ids.len(),
{
    reveal(Seq::filter);
    if ids.len() > 0 {
        lemma_dirs_counted(t, ids.drop_last());
    }
}

/// A directory has two links and one for each directory in it, modulo 2 to the 32nd; a file
/// has one.
pub proof fn law_links_count_the_directories(t: Seq<NodeView>, n: int)
    ensures
        t[n].is_dir ==> links(t, n) == (2 + t[n].children.filter(|c: int| t[c].is_dir).len())
            % 0x1_0000_0000,
        !t[n].is_dir ==> links(t, n) == 1,
{
    lemma_dirs_counted(t, t[n].children);
}

/// The attributes of a node but the root are those of the file underneath, with its own inode,
/// type and links, and there are none without that file. Those of the root are those of the
/// directory that the view is mounted on, but for the links.
pub proof fn law_attributes_come_from_the_right_place(
    t: Seq<NodeView>,
    root: FileAttr,
    id: NodeID,
    meta: Metadata,
)
    requires
        id.0 < t.len() <= u64::MAX,
    ensures
        id.0 > 0 ==> node_attr(t, root, id, Some(meta)) == Some(
            file_attr(
                meta,
                (id.0 + 1) as u64,
                if t[id.0 as int].is_dir {
                    FileType::Dir
                } else {
                    FileType::File
                },
                links(t, id.0 as int),
            ),
        ),
        id.0 > 0 ==> node_attr(t, root, id, None) is None,
        id.0 == 0 ==> node_attr(t, root, id, Some(meta)) == node_attr(t, root, id, None),
        id.0 == 0 ==> (node_attr(t, root, id, None) matches Some(attr) && attr.nlink == links(t, 0)
            && root == (FileAttr { nlink: root.nlink, ..attr })),
{
}

/// Only the lowest two bits of the flags say how a file is opened: 1 to write, 2 to read and
/// write, and else to read.
pub proof fn law_lowest_bits_are_the_access_mode(flags: i32)
    ensures
        access_mode(flags) == access_mode(flags & 3),
        flags & 3 == 1 ==> access_mode(flags) == AccessMode::WriteOnly,
        flags & 3 == 2 ==> access_mode(flags) == AccessMode::ReadWrite,
        flags & 3 != 1 && flags & 3 != 2 ==> access_mode(flags) == AccessMode::ReadOnly,
{
    assert((flags & 3) & 3 == flags & 3) by (bit_vector);
}

/// A file is open already just if it is to be read, there is such a file, and it has a backing
/// id.
pub proof fn law_open_already_means_a_backing_id(
    t: Seq<NodeView>,
    v: HandleView,
    ino: u64,
    flags: i32,
)
    ensures
        is_open_already(t, v, ino, flags) <==> flags & 3 != 1 && flags & 3 != 2 && 1 <= ino && ino
            <= t.len() && v.nodes.contains_key((ino - 1) as usize),
{
    law_lowest_bits_are_the_access_mode(flags);
}

/// An answer of five bytes is an error number, if the first is not zero, and else the backing
/// id in the other four, the lowest first. Anything else counts as an input or output error.
pub proof fn law_answers_are_read_by_their_bytes(len: usize, buf: [u8; 5])
    ensures
        answered_id(OpenAnswer::NotSent) == Err::<u32, i32>(EIO),
        answered_id(OpenAnswer::NotReceived) == Err::<u32, i32>(EIO),
        len != 5 ==> answered_id(OpenAnswer::Received { len, buf }) == Err::<u32, i32>(EIO),
        len == 5 && buf@[0] != 0 ==> answered_id(OpenAnswer::Received { len, buf }) == Err::<
            u32,
            i32,
        >(buf@[0] as i32),
        len == 5 && buf@[0] == 0 ==> (answered_id(OpenAnswer::Received { len, buf }) matches Ok(id)
            && id == buf@[1] + 256 * buf@[2] + 65536 * buf@[3] + 16777216 * buf@[4]),
{
}

/// The entries of a listing are their inodes, offsets, kinds and names, one by one and in
/// order.
pub proof fn law_entry_values(entries: Seq<DirEntry>, i: int)
    requires
        0 <= i < entries.len(),
    ensures
        entry_views(entries).len() == entries.len(),
        entry_views(entries)[i].node == entries[i].ino - 1,
        entry_views(entries)[i].next == entries[i].next,
        entry_views(entries)[i].kind == entries[i].kind,
        entry_views(entries)[i].name == entries[i].name@,
{
}

} // verus!
