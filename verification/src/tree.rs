//! The tree of nodes that the view shows.
//!
//! The nodes stand in one list, in the order of their paths, the root first. Each file
//! of the view has a node, and so has each directory on the way to it.

use vstd::prelude::*;
use vstd::slice::{slice_subrange, slice_to_vec};

use crate::filter::{file_views, FileType, FileView, ViewFile};
use crate::order::{goes_before, is_stable_order, keys, lists, slices, stable_order};
use crate::path::{
    absolute, ancestor, body, compare, component, component_spans, components, has_parent,
    is_absolute, is_prefix, lemma_ancestor, lemma_path_order, lemma_path_order_ancestors,
    lemma_path_order_prefix, lemma_path_order_transitive, lemma_spans, path_order, spans,
    Component, PathOrder, SLASH,
};

verus! {

/// The number of a node: its place in the list of nodes. The root is 0.
#[derive(Clone, Copy, Debug, PartialEq, Hash, Eq, PartialOrd, Ord, Structural)]
pub struct NodeID(pub usize);

impl NodeID {
    pub fn new(f: usize) -> (r: NodeID)
        ensures
            r == NodeID(f),
    {
        NodeID(f)
    }
}

impl From<usize> for NodeID {
    fn from(value: usize) -> (r: Self) {
        NodeID(value)
    }
}

impl vstd::std_specs::convert::FromSpecImpl<usize> for NodeID {
    open spec fn obeys_from_spec() -> bool {
        true
    }

    open spec fn from_spec(value: usize) -> Self {
        NodeID(value)
    }
}

impl From<NodeID> for usize {
    fn from(value: NodeID) -> (r: Self) {
        value.0
    }
}

impl vstd::std_specs::convert::FromSpecImpl<NodeID> for usize {
    open spec fn obeys_from_spec() -> bool {
        true
    }

    open spec fn from_spec(value: NodeID) -> Self {
        value.0
    }
}

/// A node of the tree.
#[derive(Debug)]
pub struct FileNode {
    pub name: Vec<u8>,
    pub parent: NodeID,
    pub children: Vec<NodeID>,
    pub is_dir: bool,
    pub path: Vec<u8>,
}

/// A node of the tree, as values.
pub struct NodeView {
    pub name: Seq<u8>,
    pub parent: int,
    pub children: Seq<int>,
    pub is_dir: bool,
    pub path: Seq<u8>,
}

impl View for FileNode {
    type V = NodeView;

    open spec fn view(&self) -> NodeView {
        NodeView {
            name: self.name@,
            parent: self.parent.0 as int,
            children: Seq::new(self.children@.len(), |i: int| self.children@[i].0 as int),
            is_dir: self.is_dir,
            path: self.path@,
        }
    }
}

/// The nodes of a list, as values.
pub open spec fn node_views(nodes: Seq<FileNode>) -> Seq<NodeView> {
    Seq::new(nodes.len(), |i: int| nodes[i]@)
}

/// The components of the path of a node.
pub open spec fn node_key(t: Seq<NodeView>, n: int) -> Seq<Component> {
    components(t[n].path)
}

/// The tree has a node with this path.
pub open spec fn has_node(t: Seq<NodeView>, key: Seq<Component>) -> bool {
    exists|n: int| 0 <= n < t.len() && #[trigger] node_key(t, n) == key
}

/// The first node is the root: its own parent, a directory, with the path `/`.
pub open spec fn root_first(t: Seq<NodeView>) -> bool {
    &&& t.len() > 0
    &&& t[0].name == seq![SLASH]
    &&& t[0].path == seq![SLASH]
    &&& t[0].parent == 0
    &&& t[0].is_dir
}

/// Node `n` comes after its parent, and its path is its parent's with its name added.
pub open spec fn below_parent(t: Seq<NodeView>, n: int) -> bool {
    &&& 0 <= t[n].parent < n
    &&& absolute(t[n].path)
    &&& node_key(t, n) == node_key(t, t[n].parent).push(Component::Normal(t[n].name))
}

/// The children of node `n` are the nodes that it is the parent of, in order.
pub open spec fn children_listed(t: Seq<NodeView>, n: int) -> bool {
    let c = t[n].children;
    &&& forall|k: int| 0 <= k < c.len() ==> 0 < #[trigger] c[k] < t.len() && t[c[k]].parent == n
    &&& forall|j: int, k: int| 0 <= j < k < c.len() ==> c[j] < c[k]
    &&& forall|j: int| 0 < j < t.len() && (#[trigger] t[j]).parent == n ==> c.contains(j)
}

/// The nodes form a tree, listed in the order of their paths, no path twice.
pub open spec fn is_tree(t: Seq<NodeView>) -> bool {
    &&& root_first(t)
    &&& forall|n: int| 0 < n < t.len() ==> #[trigger] below_parent(t, n)
    &&& forall|n: int| 0 <= n < t.len() ==> #[trigger] children_listed(t, n)
    &&& forall|m: int, n: int|
        0 <= m < n < t.len() ==> path_order(#[trigger] node_key(t, m), #[trigger] node_key(t, n))
            == PathOrder::Before
}

/// The paths of a list of files.
pub open spec fn file_paths(files: Seq<FileView>) -> Seq<Seq<u8>> {
    Seq::new(files.len(), |i: int| files[i].path)
}

/// The components of the path of each file.
pub open spec fn file_keys(files: Seq<FileView>) -> Seq<Seq<Component>> {
    keys(file_paths(files))
}

/// The node comes from file `i`: that file is the first, by path and then as listed, at
/// or below the node's path. The path is written as in that file, and the node is a
/// directory unless it is that file itself and no directory.
pub open spec fn node_of_file(node: NodeView, files: Seq<FileView>, i: int) -> bool {
    let key = components(node.path);
    let depth = key.len() - 1;
    &&& 0 <= i < files.len()
    &&& absolute(files[i].path)
    &&& is_prefix(key, components(files[i].path))
    &&& forall|j: int|
        0 <= j < files.len() && is_prefix(key, components((#[trigger] files[j]).path)) ==> i == j
            || goes_before(file_keys(files), i, j)
    &&& node.path == ancestor(files[i].path, depth)
    &&& node.is_dir == (key.len() < components(files[i].path).len() || files[i].filetype
        == FileType::Dir)
}

/// The node comes from one of the files.
pub open spec fn node_of_files(node: NodeView, files: Seq<FileView>) -> bool {
    exists|i: int| node_of_file(node, files, i)
}

/// The tree has a node for the file and one for each directory above it. A file whose
/// path is relative has none.
pub open spec fn file_shown(t: Seq<NodeView>, file: FileView) -> bool {
    absolute(file.path) ==> forall|d: int|
        0 < d <= components(file.path).len() ==> has_node(t, #[trigger] components(file.path).take(d))
}

/// The tree that shows these files, and nothing else.
pub open spec fn is_tree_of(t: Seq<NodeView>, files: Seq<FileView>) -> bool {
    &&& is_tree(t)
    &&& forall|n: int| 0 < n < t.len() ==> node_of_files(#[trigger] t[n], files)
    &&& forall|i: int| 0 <= i < files.len() ==> file_shown(t, #[trigger] files[i])
}

/// The tree with one node more, as the last child of `parent`.
spec fn with_child(
    t: Seq<NodeView>,
    parent: int,
    name: Seq<u8>,
    path: Seq<u8>,
    is_dir: bool,
) -> Seq<NodeView> {
    t.update(
        parent,
        NodeView { children: t[parent].children.push(t.len() as int), ..t[parent] },
    ).push(NodeView { name, parent, children: Seq::empty(), is_dir, path })
}

proof fn lemma_with_child(
    t: Seq<NodeView>,
    parent: int,
    name: Seq<u8>,
    path: Seq<u8>,
    is_dir: bool,
)
    requires
        is_tree(t),
        0 <= parent < t.len(),
        absolute(path),
        components(path) == node_key(t, parent).push(Component::Normal(name)),
        forall|n: int|
            0 <= n < t.len() ==> path_order(#[trigger] node_key(t, n), components(path))
                == PathOrder::Before,
    ensures
        is_tree(with_child(t, parent, name, path, is_dir)),
{
    let u = with_child(t, parent, name, path, is_dir);
    let last = t.len() as int;
    assert forall|n: int| 0 <= n < t.len() implies {
        &&& #[trigger] u[n].path == t[n].path
        &&& u[n].name == t[n].name
        &&& u[n].parent == t[n].parent
        &&& u[n].is_dir == t[n].is_dir
        &&& node_key(u, n) == node_key(t, n)
    } by {}
    assert(node_key(u, last) == components(path));
    assert forall|n: int| 0 < n < u.len() implies #[trigger] below_parent(u, n) by {
        if n < last {
            assert(below_parent(t, n));
            assert(u[n].path == t[n].path);
            assert(u[t[n].parent].path == t[t[n].parent].path);
        } else {
            assert(u[parent].path == t[parent].path);
        }
    }
    assert forall|n: int| 0 <= n < u.len() implies #[trigger] children_listed(u, n) by {
        let c = u[n].children;
        if n < last {
            assert(children_listed(t, n));
            let b = t[n].children;
            if n == parent {
                assert(c == b.push(last));
                assert forall|k: int| 0 <= k < c.len() implies 0 < #[trigger] c[k] < u.len()
                    && u[c[k]].parent == n by {
                    if k < b.len() {
                        assert(c[k] == b[k]);
                        assert(u[b[k]].parent == t[b[k]].parent);
                    }
                }
                assert forall|j: int| 0 < j < u.len() && (#[trigger] u[j]).parent == n implies c.contains(
                    j,
                ) by {
                    if j < last {
                        assert(u[j].parent == t[j].parent);
                        assert(b.contains(j));
                        let k = choose|k: int| 0 <= k < b.len() && b[k] == j;
                        assert(c[k] == j);
                    } else {
                        assert(c[b.len() as int] == j);
                    }
                }
            } else {
                assert(c == b);
                assert forall|k: int| 0 <= k < c.len() implies 0 < #[trigger] c[k] < u.len()
                    && u[c[k]].parent == n by {
                    assert(u[b[k]].parent == t[b[k]].parent);
                }
                assert forall|j: int| 0 < j < u.len() && (#[trigger] u[j]).parent == n implies c.contains(
                    j,
                ) by {
                    if j < last {
                        assert(u[j].parent == t[j].parent);
                    }
                }
            }
        } else {
            assert forall|j: int| 0 < j < u.len() && (#[trigger] u[j]).parent == n implies c.contains(
                j,
            ) by {
                if j < last {
                    assert(u[j].parent == t[j].parent);
                    assert(below_parent(t, j));
                }
            }
        }
    }
    assert forall|m: int, n: int| 0 <= m < n < u.len() implies path_order(
        #[trigger] node_key(u, m),
        #[trigger] node_key(u, n),
    ) == PathOrder::Before by {
        assert(u[m].path == t[m].path);
        assert(node_key(u, m) == node_key(t, m));
        if n < last {
            assert(u[n].path == t[n].path);
            assert(node_key(u, n) == node_key(t, n));
        }
    }
    assert(u[0].path == t[0].path);
}

/// With the node `m` before the path looked for, so are the nodes listed earlier.
proof fn lemma_nodes_before(t: Seq<NodeView>, m: int, key: Seq<Component>)
    requires
        is_tree(t),
        0 <= m < t.len(),
        path_order(node_key(t, m), key) == PathOrder::Before,
    ensures
        forall|n: int|
            0 <= n <= m ==> path_order(#[trigger] node_key(t, n), key) == PathOrder::Before,
{
    assert forall|n: int| 0 <= n <= m implies path_order(#[trigger] node_key(t, n), key)
        == PathOrder::Before by {
        if n < m {
            lemma_path_order_transitive(node_key(t, n), node_key(t, m), key);
        }
    }
}

/// With the node `m` after the path looked for, so are the nodes listed later.
proof fn lemma_nodes_after(t: Seq<NodeView>, m: int, key: Seq<Component>)
    requires
        is_tree(t),
        0 <= m < t.len(),
        path_order(node_key(t, m), key) == PathOrder::After,
    ensures
        forall|n: int|
            m <= n < t.len() ==> path_order(#[trigger] node_key(t, n), key) == PathOrder::After,
{
    assert forall|n: int| m <= n < t.len() implies path_order(#[trigger] node_key(t, n), key)
        == PathOrder::After by {
        if m < n {
            lemma_path_order(node_key(t, m), key);
            lemma_path_order(key, node_key(t, n));
            lemma_path_order_transitive(key, node_key(t, m), node_key(t, n));
        }
    }
}

/// The node with the given path, if the tree has one.
fn find_node(nodes: &Vec<FileNode>, path: &[u8]) -> (r: Option<usize>)
    requires
        is_tree(node_views(nodes@)),
    ensures
        match r {
            Some(n) => n < nodes@.len() && node_key(node_views(nodes@), n as int) == components(
                path@,
            ),
            None => !has_node(node_views(nodes@), components(path@)),
        },
{
    let ghost t = node_views(nodes@);
    let ghost key = components(path@);
    let mut lo: usize = 0;
    let mut hi: usize = nodes.len();
    while lo < hi
        invariant
            lo <= hi <= nodes@.len(),
            t == node_views(nodes@),
            key == components(path@),
            is_tree(t),
            forall|n: int|
                0 <= n < lo ==> path_order(#[trigger] node_key(t, n), key) == PathOrder::Before,
            forall|n: int|
                hi <= n < t.len() ==> path_order(#[trigger] node_key(t, n), key)
                    == PathOrder::After,
        decreases hi - lo,
    {
        let mid = lo + (hi - lo) / 2;
        assert(t[mid as int].path == nodes@[mid as int].path@);
        match compare(nodes[mid].path.as_slice(), path) {
            PathOrder::Same => {
                proof {
                    lemma_path_order(node_key(t, mid as int), key);
                }
                return Some(mid);
            },
            PathOrder::Before => {
                proof {
                    lemma_nodes_before(t, mid as int, key);
                }
                lo = mid + 1;
            },
            PathOrder::After => {
                proof {
                    lemma_nodes_after(t, mid as int, key);
                }
                hi = mid;
            },
        }
    }
    proof {
        if has_node(t, key) {
            let n = choose|n: int| 0 <= n < t.len() && #[trigger] node_key(t, n) == key;
            lemma_path_order(key, key);
        }
    }
    None
}

/// Adds a node as the last child of `parent`.
fn add_child(nodes: &mut Vec<FileNode>, parent: usize, name: Vec<u8>, path: Vec<u8>, is_dir: bool)
    requires
        parent < old(nodes)@.len(),
    ensures
        node_views(final(nodes)@) == with_child(
            node_views(old(nodes)@),
            parent as int,
            name@,
            path@,
            is_dir,
        ),
{
    let ghost before = node_views(nodes@);
    let new_id: NodeID = NodeID(nodes.len());
    nodes[parent].children.push(new_id);
    nodes.push(FileNode { name, parent: NodeID(parent), children: Vec::new(), is_dir, path });
    proof {
        let after = node_views(nodes@);
        let want = with_child(before, parent as int, name@, path@, is_dir);
        assert(after[parent as int].children =~= want[parent as int].children);
        assert(after.last().children =~= want.last().children);
        assert(after =~= want);
    }
}

/// The nodes stand for the first `m` files in order, and show these.
spec fn shows(t: Seq<NodeView>, files: Seq<FileView>, order: Seq<usize>, m: int) -> bool {
    &&& is_tree(t)
    &&& forall|n: int|
        0 < n < t.len() ==> exists|a: int|
            0 <= a < m && node_of_file(#[trigger] t[n], files, #[trigger] order[a] as int)
    &&& forall|a: int| 0 <= a < m ==> file_shown(t, files[#[trigger] order[a] as int])
}

/// The first nodes are as they were, but for their children.
spec fn extends(t: Seq<NodeView>, u: Seq<NodeView>) -> bool {
    &&& t.len() <= u.len()
    &&& forall|n: int|
        0 <= n < t.len() ==> {
            &&& (#[trigger] u[n]).name == t[n].name
            &&& u[n].parent == t[n].parent
            &&& u[n].is_dir == t[n].is_dir
            &&& u[n].path == t[n].path
        }
}

/// A tree that extends another has its nodes.
proof fn lemma_extends_has_node(t: Seq<NodeView>, u: Seq<NodeView>, key: Seq<Component>)
    requires
        extends(t, u),
        has_node(t, key),
    ensures
        has_node(u, key),
{
    let n = choose|n: int| 0 <= n < t.len() && #[trigger] node_key(t, n) == key;
    assert(u[n].path == t[n].path);
    assert(node_key(u, n) == key);
}

/// Where no node stands for a prefix of the file that is next in order, all nodes come
/// before that prefix, and none lies under it; and the file is the first that does.
proof fn lemma_next_prefix(
    t: Seq<NodeView>,
    files: Seq<FileView>,
    order: Seq<usize>,
    m: int,
    key: Seq<Component>,
)
    requires
        is_stable_order(file_keys(files), order),
        0 <= m < order.len(),
        shows(t, files, order, m),
        absolute(files[order[m] as int].path),
        is_prefix(key, components(files[order[m] as int].path)),
        key.len() > 0,
        !has_node(t, key),
    ensures
        forall|n: int|
            0 <= n < t.len() ==> path_order(#[trigger] node_key(t, n), key) == PathOrder::Before,
        forall|j: int|
            0 <= j < files.len() && is_prefix(key, components((#[trigger] files[j]).path))
                ==> order[m] == j || goes_before(file_keys(files), order[m] as int, j),
{
    let fk = file_keys(files);
    let c = components(files[order[m] as int].path);
    assert(c[0] == Component::Root);
    assert(key[0] == c[0]);
    assert forall|b: int|
        0 <= b < m && is_prefix(key, components(files[#[trigger] order[b] as int].path)) implies false by {
        let other = files[order[b] as int];
        let oc = components(other.path);
        assert(file_shown(t, other));
        assert(oc[0] == key[0]);
        assert(absolute(other.path)) by {
            lemma_starts_with_root(other.path);
        }
        assert(has_node(t, oc.take(key.len() as int)));
    }
    assert forall|n: int| 0 <= n < t.len() implies path_order(#[trigger] node_key(t, n), key)
        == PathOrder::Before by {
        let p = node_key(t, n);
        if n == 0 {
            lemma_root_key();
            assert(p =~= key.take(1));
            if key.len() == 1 {
                assert(p =~= key);
            }
            lemma_path_order_prefix(p, key);
        } else {
            let a = choose|a: int|
                0 <= a < m && node_of_file(t[n], files, #[trigger] order[a] as int);
            let x = components(files[order[a] as int].path);
            assert(goes_before(fk, order[a] as int, order[m] as int));
            assert(fk[order[a] as int] == x);
            assert(fk[order[m] as int] == c);
            if is_prefix(key, p) {
                assert(is_prefix(key, x)) by {
                    assert(key =~= x.take(key.len() as int));
                }
            }
            lemma_path_order_ancestors(p, x, key, c);
        }
    }
    assert forall|j: int|
        0 <= j < files.len() && is_prefix(key, components((#[trigger] files[j]).path)) implies order[m]
        == j || goes_before(fk, order[m] as int, j) by {
        assert(fk.len() == files.len());
        assert(lists(order, j));
        let b = choose|b: int| 0 <= b < order.len() && #[trigger] order[b] == j;
        assert(files[order[b] as int] == files[j]);
        if b > m {
            assert(goes_before(fk, order[m] as int, order[b] as int));
        }
    }
}

/// A path whose first component is the root is absolute.
pub proof fn lemma_starts_with_root(path: Seq<u8>)
    requires
        components(path).len() > 0,
        components(path)[0] == Component::Root,
    ensures
        absolute(path),
{
    if !absolute(path) {
        assert(body(path, 0).len() == spans(path, 0).len());
    }
}

/// The root has one component.
pub proof fn lemma_root_key()
    ensures
        components(seq![SLASH]) == seq![Component::Root],
        absolute(seq![SLASH]),
{
    let p = seq![SLASH];
    lemma_ancestor(p, 0);
    lemma_spans(p, 0);
    assert(spans(p, 0).len() == 0) by {
        if spans(p, 0).len() > 0 {
            let s = spans(p, 0)[0];
            assert(p.subrange(s.0, s.1) =~= p);
            reveal_with_fuel(spans, 3);
            assert(crate::path::piece_end(p, 0) == 0);
            assert(crate::path::piece_end(p, 1) == 1);
            assert(p.subrange(0, 0).len() == 0);
            assert(p.subrange(1, 1).len() == 0);
        }
    }
    assert(components(p) =~= seq![Component::Root]);
}

/// How many bytes of an absolute path reach down to a depth.
fn ancestor_len(path: &[u8], at: &Vec<(usize, usize)>, depth: usize) -> (len: usize)
    requires
        absolute(path@),
        at@.len() == spans(path@, 0).len(),
        forall|k: int| 0 <= k < at@.len() ==> (#[trigger] at@[k]).1 == spans(path@, 0)[k].1,
        depth <= at@.len(),
    ensures
        len <= path@.len(),
        path@.take(len as int) == ancestor(path@, depth as int),
        absolute(path@.take(len as int)),
        components(path@.take(len as int)) == components(path@).take(depth + 1),
{
    proof {
        lemma_spans(path@, 0);
        lemma_ancestor(path@, depth as int);
        assert(path@.take(path@.len() as int) =~= path@);
    }
    if depth == at.len() {
        path.len()
    } else if depth == 0 {
        1
    } else {
        at[depth - 1].1
    }
}

/// Adds the nodes for the file that is next in order.
fn add_file(
    nodes: &mut Vec<FileNode>,
    file: &ViewFile,
    Ghost(files): Ghost<Seq<FileView>>,
    Ghost(order): Ghost<Seq<usize>>,
    Ghost(m): Ghost<int>,
)
    requires
        is_stable_order(file_keys(files), order),
        0 <= m < order.len(),
        files[order[m] as int] == file@,
        absolute(file@.path) ==> !has_parent(file@.path),
        shows(node_views(old(nodes)@), files, order, m),
    ensures
        shows(node_views(final(nodes)@), files, order, m + 1),
{
    let ghost t0 = node_views(nodes@);
    let ghost i = order[m] as int;
    let path = file.path.as_slice();
    if !is_absolute(path) {
        proof {
            assert forall|a: int| 0 <= a < m + 1 implies file_shown(
                t0,
                files[#[trigger] order[a] as int],
            ) by {}
            assert forall|n: int| 0 < n < t0.len() implies exists|a: int|
                0 <= a < m + 1 && node_of_file(
                    #[trigger] t0[n],
                    files,
                    #[trigger] order[a] as int,
                ) by {
                let a = choose|a: int|
                    0 <= a < m && node_of_file(t0[n], files, #[trigger] order[a] as int);
                assert(node_of_file(t0[n], files, order[a] as int));
            }
        }
        return;
    }
    let ghost c = components(path@);
    let at = component_spans(path);
    let full = at.len();
    proof {
        lemma_spans(path@, 0);
        assert(c.len() == full + 1);
    }
    // The deepest ancestor that has a node
    let mut depth: usize = full;
    let mut parent: usize = 0;
    let mut found = false;
    while !found
        invariant
            t0 == node_views(nodes@),
            is_tree(t0),
            absolute(path@),
            c == components(path@),
            c.len() == full + 1,
            full == at@.len(),
            at@.len() == spans(path@, 0).len(),
            forall|k: int| 0 <= k < at@.len() ==> (#[trigger] at@[k]).1 == spans(path@, 0)[k].1,
            depth <= full,
            forall|d: int| depth < d <= full ==> !has_node(t0, #[trigger] c.take(d + 1)),
            found ==> parent < nodes@.len() && node_key(t0, parent as int) == c.take(depth + 1),
        decreases depth + (if found { 0int } else { 1int }),
    {
        let len = ancestor_len(path, &at, depth);
        match find_node(nodes, slice_subrange(path, 0, len)) {
            Some(n) => {
                parent = n;
                found = true;
            },
            None => {
                proof {
                    assert(path@.subrange(0, len as int) =~= path@.take(len as int));
                    if depth == 0 {
                        lemma_root_key();
                        assert(node_key(t0, 0) =~= c.take(1));
                    }
                }
                depth = depth - 1;
            },
        }
        assert(path@.subrange(0, len as int) =~= path@.take(len as int));
    }
    proof {
        assert forall|d: int| 0 < d <= depth + 1 implies has_node(t0, #[trigger] c.take(d)) by {
            lemma_ancestors_have_nodes(t0, parent as int, d);
            assert(c.take(depth + 1).take(d) =~= c.take(d));
        }
    }
    let ghost start = depth;
    while depth < full
        invariant
            start <= depth <= full,
            is_tree(node_views(nodes@)),
            extends(t0, node_views(nodes@)),
            is_stable_order(file_keys(files), order),
            0 <= m < order.len(),
            files[order[m] as int] == file@,
            i == order[m],
            path@ == file@.path,
            absolute(path@),
            !has_parent(path@),
            shows(t0, files, order, m),
            c == components(path@),
            c.len() == full + 1,
            full == at@.len(),
            at@.len() == spans(path@, 0).len(),
            forall|k: int|
                0 <= k < at@.len() ==> {
                    &&& (#[trigger] at@[k]).0 == spans(path@, 0)[k].0
                    &&& at@[k].1 == spans(path@, 0)[k].1
                    &&& at@[k].0 < at@[k].1 <= path@.len()
                },
            forall|d: int| start < d <= full ==> !has_node(t0, #[trigger] c.take(d + 1)),
            parent < nodes@.len(),
            node_key(node_views(nodes@), parent as int) == c.take(depth + 1),
            forall|d: int|
                0 < d <= depth + 1 ==> has_node(node_views(nodes@), #[trigger] c.take(d)),
            forall|n: int|
                t0.len() <= n < nodes@.len() ==> {
                    &&& node_of_file(#[trigger] node_views(nodes@)[n], files, i)
                    &&& is_prefix(node_key(node_views(nodes@), n), c.take(depth + 1))
                },
        decreases full - depth,
    {
        let ghost t = node_views(nodes@);
        depth = depth + 1;
        let len = ancestor_len(path, &at, depth);
        let piece = slice_subrange(path, at[depth - 1].0, at[depth - 1].1);
        let name = slice_to_vec(piece);
        let node_path = slice_to_vec(slice_subrange(path, 0, len));
        let is_dir = depth < full || file.filetype == FileType::Dir;
        let ghost key = c.take(depth + 1);
        proof {
            assert(node_path@ =~= path@.take(len as int));
            assert(components(node_path@) == key);
            assert(body(path@, 0)[depth - 1] == component(piece@));
            assert(c[depth as int] == component(piece@));
            assert(key =~= c.take(depth as int).push(c[depth as int]));
            if component(piece@) == Component::Parent {
                assert(c.contains(Component::Parent));
            }
            lemma_next_prefix(t0, files, order, m, key);
            assert forall|n: int| 0 <= n < t.len() implies path_order(
                #[trigger] node_key(t, n),
                components(node_path@),
            ) == PathOrder::Before by {
                if n < t0.len() {
                    assert(t[n].path == t0[n].path);
                    assert(node_key(t, n) == node_key(t0, n));
                } else {
                    assert(node_of_file(t[n], files, i));
                    let p = node_key(t, n);
                    assert(p =~= key.take(p.len() as int));
                    lemma_path_order_prefix(p, key);
                }
            }
            lemma_with_child(t, parent as int, name@, node_path@, is_dir);
        }
        add_child(nodes, parent, name, node_path, is_dir);
        proof {
            let u = node_views(nodes@);
            let last = t.len() as int;
            assert(u == with_child(t, parent as int, name@, node_path@, is_dir));
            assert(extends(t, u));
            assert(u[last].path == node_path@);
            assert(node_key(u, last) == key);
            assert(node_of_file(u[last], files, i));
            assert forall|n: int| t0.len() <= n < u.len() implies {
                &&& node_of_file(#[trigger] u[n], files, i)
                &&& is_prefix(node_key(u, n), key)
            } by {
                if n < last {
                    assert(node_of_file(t[n], files, i));
                    let p = node_key(t, n);
                    assert(node_key(u, n) == p);
                    assert(p =~= key.take(p.len() as int));
                } else {
                    assert(key =~= key.take(key.len() as int));
                }
            }
            assert forall|d: int| 0 < d <= depth + 1 implies has_node(u, #[trigger] c.take(d)) by {
                if d <= depth {
                    assert(has_node(t, c.take(d)));
                    lemma_extends_has_node(t, u, c.take(d));
                }
            }
        }
        parent = nodes.len() - 1;
    }
    proof {
        let u = node_views(nodes@);
        assert forall|n: int| 0 < n < u.len() implies exists|a: int|
            0 <= a < m + 1 && node_of_file(#[trigger] u[n], files, #[trigger] order[a] as int) by {
            if n < t0.len() {
                let a = choose|a: int|
                    0 <= a < m && node_of_file(t0[n], files, #[trigger] order[a] as int);
                assert(node_of_file(u[n], files, order[a] as int));
            } else {
                assert(node_of_file(u[n], files, order[m] as int));
            }
        }
        assert forall|a: int| 0 <= a < m + 1 implies file_shown(
            u,
            files[#[trigger] order[a] as int],
        ) by {
            let f = files[order[a] as int];
            if a < m && absolute(f.path) {
                assert(file_shown(t0, f));
                assert forall|d: int| 0 < d <= components(f.path).len() implies has_node(
                    u,
                    #[trigger] components(f.path).take(d),
                ) by {
                    lemma_extends_has_node(t0, u, components(f.path).take(d));
                }
            }
        }
    }
}

/// With a node, a tree has the nodes above it.
proof fn lemma_ancestors_have_nodes(t: Seq<NodeView>, n: int, d: int)
    requires
        is_tree(t),
        0 <= n < t.len(),
        0 < d <= node_key(t, n).len(),
    ensures
        has_node(t, node_key(t, n).take(d)),
    decreases n,
{
    let key = node_key(t, n);
    if d == key.len() {
        assert(key.take(d) =~= key);
    } else if n == 0 {
        lemma_root_key();
    } else {
        assert(below_parent(t, n));
        let up = node_key(t, t[n].parent);
        lemma_ancestors_have_nodes(t, t[n].parent, d);
        assert(key.take(d) =~= up.take(d));
    }
}

/// Builds the tree of nodes that shows the files.
pub fn generate_nodes(files: &Vec<ViewFile>) -> (nodes: Vec<FileNode>)
    requires
        forall|i: int|
            0 <= i < files@.len() && absolute((#[trigger] files@[i]).path@) ==> !has_parent(
                files@[i].path@,
            ),
    ensures
        is_tree_of(node_views(nodes@), file_views(files@)),
{
    let ghost fv = file_views(files@);
    let mut paths: Vec<&[u8]> = Vec::new();
    let mut k: usize = 0;
    while k < files.len()
        invariant
            k <= files@.len(),
            paths@.len() == k,
            forall|j: int| 0 <= j < k ==> (#[trigger] paths@[j])@ == files@[j].path@,
        decreases files@.len() - k,
    {
        paths.push(files[k].path.as_slice());
        k = k + 1;
    }
    let order = stable_order(&paths);
    assert(slices(paths@) =~= file_paths(fv));
    let mut nodes: Vec<FileNode> = Vec::new();
    let mut root_name: Vec<u8> = Vec::new();
    root_name.push(SLASH);
    let mut root_path: Vec<u8> = Vec::new();
    root_path.push(SLASH);
    nodes.push(
        FileNode {
            name: root_name,
            path: root_path,
            parent: NodeID(0),
            children: Vec::new(),
            is_dir: true,
        },
    );
    proof {
        let t = node_views(nodes@);
        assert(t[0].name =~= seq![SLASH]);
        assert(t[0].path =~= seq![SLASH]);
        assert(children_listed(t, 0));
        assert(shows(t, fv, order@, 0));
    }
    let mut m: usize = 0;
    while m < order.len()
        invariant
            m <= order@.len(),
            fv == file_views(files@),
            is_stable_order(file_keys(fv), order@),
            shows(node_views(nodes@), fv, order@, m as int),
            forall|i: int|
                0 <= i < files@.len() && absolute((#[trigger] files@[i]).path@) ==> !has_parent(
                    files@[i].path@,
                ),
        decreases order@.len() - m,
    {
        let i = order[m];
        assert(file_keys(fv).len() == files@.len());
        assert(fv[i as int] == files@[i as int]@);
        add_file(&mut nodes, &files[i], Ghost(fv), Ghost(order@), Ghost(m as int));
        m = m + 1;
    }
    proof {
        let t = node_views(nodes@);
        assert forall|n: int| 0 < n < t.len() implies node_of_files(#[trigger] t[n], fv) by {
            let a = choose|a: int|
                0 <= a < m && node_of_file(t[n], fv, #[trigger] order@[a] as int);
            assert(node_of_file(t[n], fv, order@[a] as int));
        }
        assert forall|i: int| 0 <= i < fv.len() implies file_shown(t, #[trigger] fv[i]) by {
            assert(lists(order@, i));
            let a = choose|a: int| 0 <= a < order@.len() && #[trigger] order@[a] == i;
            assert(file_shown(t, fv[order@[a] as int]));
        }
    }
    nodes
}

} // verus!
