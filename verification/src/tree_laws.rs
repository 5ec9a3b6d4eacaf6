//! What holds of every tree that shows a list of files.

use vstd::prelude::*;

use crate::filter::{FileType, FileView};
use crate::order::goes_before;
use crate::path::{
    absolute, components, is_name, is_prefix, law_a_piece_adds_its_component,
    law_ancestor_is_written_as_in_the_path, law_components_are_names, law_piece_below_the_root,
    lemma_path_order, lemma_path_order_prefix, path_order, Component, PathOrder, DOT, SLASH,
};
use crate::tree::{
    below_parent, children_listed, file_keys, file_shown, has_node, is_tree, is_tree_of,
    lemma_root_key, lemma_starts_with_root, node_key, node_of_file, node_of_files, node_views,
    FileNode, NodeView,
};

verus! {

/// No two nodes have the same path.
pub proof fn law_paths_are_distinct(t: Seq<NodeView>, m: int, n: int)
    requires
        is_tree(t),
        0 <= m < t.len(),
        0 <= n < t.len(),
        node_key(t, m) == node_key(t, n),
    ensures
        m == n,
{
    lemma_path_order(node_key(t, m), node_key(t, n));
    lemma_path_order(node_key(t, n), node_key(t, m));
    if m < n {
        assert(path_order(node_key(t, m), node_key(t, n)) == PathOrder::Before);
    } else if n < m {
        assert(path_order(node_key(t, n), node_key(t, m)) == PathOrder::Before);
    }
}

/// No two entries of one directory have the same name.
pub proof fn law_sibling_names_are_distinct(t: Seq<NodeView>, m: int, n: int)
    requires
        is_tree(t),
        0 < m < t.len(),
        0 < n < t.len(),
        t[m].parent == t[n].parent,
        t[m].name == t[n].name,
    ensures
        m == n,
{
    assert(below_parent(t, m));
    assert(below_parent(t, n));
    law_paths_are_distinct(t, m, n);
}

/// Every node but the root is called something that a file can be called.
pub proof fn law_names_are_file_names(t: Seq<NodeView>, n: int)
    requires
        is_tree(t),
        0 < n < t.len(),
    ensures
        is_name(t[n].name),
        t[n].name.len() > 0,
        t[n].name != seq![DOT],
        t[n].name != seq![DOT, DOT],
        !t[n].name.contains(SLASH),
{
    assert(below_parent(t, n));
    let key = node_key(t, n);
    assert(key.last() == Component::Normal(t[n].name));
    law_components_are_names(t[n].path, key.len() - 1);
}

/// Every node but the root is a child of its parent.
pub proof fn law_parents_list_their_children(t: Seq<NodeView>, n: int)
    requires
        is_tree(t),
        0 < n < t.len(),
    ensures
        0 <= t[n].parent < n,
        t[t[n].parent].children.contains(n),
{
    assert(below_parent(t, n));
    assert(children_listed(t, t[n].parent));
}

/// The paths that have a node are the root and the absolute files with what lies above
/// them.
pub proof fn law_nodes_are_files_and_their_ancestors(
    t: Seq<NodeView>,
    files: Seq<FileView>,
    key: Seq<Component>,
)
    requires
        is_tree_of(t, files),
    ensures
        has_node(t, key) <==> key == seq![Component::Root] || (key.len() > 0 && exists|i: int|
            0 <= i < files.len() && absolute(files[i].path) && is_prefix(
                key,
                components((#[trigger] files[i]).path),
            )),
{
    lemma_root_key();
    if has_node(t, key) {
        let n = choose|n: int| 0 <= n < t.len() && #[trigger] node_key(t, n) == key;
        if n > 0 {
            assert(below_parent(t, n));
            assert(node_of_files(t[n], files));
            let i = choose|i: int| node_of_file(t[n], files, i);
            assert(is_prefix(key, components(files[i].path)));
        }
    }
    if key == seq![Component::Root] {
        assert(node_key(t, 0) == key);
    } else if key.len() > 0 && exists|i: int|
        0 <= i < files.len() && absolute(files[i].path) && is_prefix(
            key,
            components((#[trigger] files[i]).path),
        ) {
        let i = choose|i: int|
            0 <= i < files.len() && absolute(files[i].path) && is_prefix(
                key,
                components((#[trigger] files[i]).path),
            );
        assert(file_shown(t, files[i]));
        assert(has_node(t, components(files[i].path).take(key.len() as int)));
    }
}

/// A node is what the first file with its path is. A directory that no file names is
/// shown as one.
pub proof fn law_own_file_gives_the_type(t: Seq<NodeView>, files: Seq<FileView>, n: int)
    requires
        is_tree_of(t, files),
        0 < n < t.len(),
    ensures
        forall|i: int|
            0 <= i < files.len() && components(files[i].path) == node_key(t, n) && (forall|j: int|
                0 <= j < i ==> components((#[trigger] files[j]).path) != node_key(t, n))
                ==> t[n].is_dir == ((#[trigger] files[i]).filetype == FileType::Dir),
        (forall|i: int|
            0 <= i < files.len() ==> components((#[trigger] files[i]).path) != node_key(t, n))
            ==> t[n].is_dir,
{
    let key = node_key(t, n);
    assert(node_of_files(t[n], files));
    let o = choose|o: int| node_of_file(t[n], files, o);
    let oc = components(files[o].path);
    assert forall|i: int|
        0 <= i < files.len() && components(files[i].path) == key && (forall|j: int|
            0 <= j < i ==> components((#[trigger] files[j]).path) != key) implies t[n].is_dir == ((
    #[trigger] files[i]).filetype == FileType::Dir) by {
        assert(key =~= key.take(key.len() as int));
        assert(is_prefix(key, components(files[i].path)));
        if o != i {
            assert(goes_before(file_keys(files), o, i));
            lemma_path_order(oc, key);
            if oc == key {
                assert(o < i);
            } else {
                assert(path_order(oc, key) == PathOrder::Before);
                lemma_path_order_prefix(key, oc);
                lemma_path_order(key, oc);
            }
        }
    }
    if forall|i: int| 0 <= i < files.len() ==> components((#[trigger] files[i]).path) != key {
        if key.len() == oc.len() {
            assert(oc.take(key.len() as int) =~= oc);
        }
    }
}

proof fn lemma_sorted_keys_agree(t: Seq<NodeView>, u: Seq<NodeView>, k: int)
    requires
        is_tree(t),
        is_tree(u),
        forall|key: Seq<Component>| has_node(t, key) <==> has_node(u, key),
        0 <= k < t.len(),
    ensures
        k < u.len(),
        node_key(t, k) == node_key(u, k),
    decreases k,
{
    assert forall|j: int| 0 <= j < k implies j < u.len() && node_key(t, j) == #[trigger] node_key(
        u,
        j,
    ) by {
        lemma_sorted_keys_agree(t, u, j);
    }
    assert(has_node(t, node_key(t, k)));
    assert(has_node(u, node_key(t, k)));
    let p = choose|p: int| 0 <= p < u.len() && #[trigger] node_key(u, p) == node_key(t, k);
    if p < k {
        assert(node_key(t, p) == node_key(u, p));
        law_paths_are_distinct(t, p, k);
    } else if p > k {
        assert(has_node(u, node_key(u, k)));
        assert(has_node(t, node_key(u, k)));
        let q = choose|q: int| 0 <= q < t.len() && #[trigger] node_key(t, q) == node_key(u, k);
        assert(path_order(node_key(u, k), node_key(u, p)) == PathOrder::Before);
        if q < k {
            assert(node_key(u, q) == node_key(t, q));
            law_paths_are_distinct(u, q, k);
        } else {
            lemma_path_order(node_key(t, q), node_key(t, k));
            if q > k {
                assert(path_order(node_key(t, k), node_key(t, q)) == PathOrder::Before);
            }
            lemma_path_order(node_key(t, k), node_key(t, q));
        }
    }
}

proof fn lemma_sorted_lists_agree(a: Seq<int>, b: Seq<int>, k: int)
    requires
        forall|i: int, j: int| 0 <= i < j < a.len() ==> a[i] < a[j],
        forall|i: int, j: int| 0 <= i < j < b.len() ==> b[i] < b[j],
        forall|v: int| a.contains(v) <==> b.contains(v),
        0 <= k < a.len(),
    ensures
        k < b.len(),
        a[k] == b[k],
    decreases k,
{
    assert forall|j: int| 0 <= j < k implies j < b.len() && a[j] == #[trigger] b[j] by {
        lemma_sorted_lists_agree(a, b, j);
    }
    assert(a.contains(a[k]));
    assert(b.contains(a[k]));
    let p = choose|p: int| 0 <= p < b.len() && b[p] == a[k];
    if p < k {
        assert(a[p] == b[p]);
    } else if p > k {
        assert(b.contains(b[k]));
        assert(a.contains(b[k]));
        let q = choose|q: int| 0 <= q < a.len() && a[q] == b[k];
        if q < k {
            assert(a[q] == b[q]);
        }
    }
}

/// The node has the same place in both trees: path, parent, name and children agree. The
/// path can be written in two ways.
pub open spec fn same_place(t: Seq<NodeView>, u: Seq<NodeView>, n: int) -> bool {
    &&& node_key(t, n) == node_key(u, n)
    &&& t[n].parent == u[n].parent
    &&& t[n].name == u[n].name
    &&& t[n].children == u[n].children
}

/// Two trees with the same paths have the same shape: node by node the path, the parent,
/// the name and the children agree.
proof fn lemma_same_paths_same_shape(t: Seq<NodeView>, u: Seq<NodeView>)
    requires
        is_tree(t),
        is_tree(u),
        forall|key: Seq<Component>| has_node(t, key) <==> has_node(u, key),
    ensures
        t.len() == u.len(),
        forall|n: int| 0 <= n < t.len() ==> #[trigger] same_place(t, u, n),
{
    assert forall|k: int| 0 <= k < t.len() implies k < u.len() && node_key(t, k)
        == #[trigger] node_key(u, k) by {
        lemma_sorted_keys_agree(t, u, k);
    }
    if u.len() > t.len() {
        lemma_sorted_keys_agree(u, t, t.len() as int);
    }
    if t.len() > u.len() {
        lemma_sorted_keys_agree(t, u, u.len() as int);
    }
    assert(t.len() == u.len());
    assert forall|n: int| 0 < n < t.len() implies t[n].parent == #[trigger] u[n].parent && t[n].name
        == u[n].name by {
        assert(below_parent(t, n));
        assert(below_parent(u, n));
        assert(node_key(t, n) == node_key(u, n));
        let a = t[n].parent;
        let b = u[n].parent;
        assert(node_key(t, a) =~= node_key(t, n).drop_last());
        assert(node_key(u, b) =~= node_key(u, n).drop_last());
        assert(node_key(t, b) == node_key(u, b));
        law_paths_are_distinct(t, a, b);
        assert(node_key(t, n).last() == node_key(u, n).last());
    }
    assert forall|n: int| 0 <= n < t.len() implies #[trigger] same_place(t, u, n) by {
        assert(children_listed(t, n));
        assert(children_listed(u, n));
        let a = t[n].children;
        let b = u[n].children;
        assert forall|v: int| a.contains(v) <==> b.contains(v) by {
            if a.contains(v) {
                let k = choose|k: int| 0 <= k < a.len() && a[k] == v;
                assert(0 < a[k] < t.len());
                assert(t[v].parent == u[v].parent);
            }
            if b.contains(v) {
                let k = choose|k: int| 0 <= k < b.len() && b[k] == v;
                assert(0 < b[k] < u.len());
                assert(t[v].parent == u[v].parent);
            }
        }
        assert forall|k: int| 0 <= k < a.len() implies k < b.len() && a[k] == #[trigger] b[k] by {
            lemma_sorted_lists_agree(a, b, k);
        }
        if b.len() > a.len() {
            lemma_sorted_lists_agree(b, a, a.len() as int);
        }
        if a.len() > b.len() {
            lemma_sorted_lists_agree(a, b, b.len() as int);
        }
        assert(a =~= b);
        assert(node_key(t, n) == node_key(u, n));
        if n > 0 {
            assert(t[n].parent == u[n].parent);
        }
    }
}

/// A list of files has one tree: the nodes, their numbers and all that is known of each
/// are settled by the files.
pub proof fn law_tree_is_unique(t: Seq<NodeView>, u: Seq<NodeView>, files: Seq<FileView>)
    requires
        is_tree_of(t, files),
        is_tree_of(u, files),
    ensures
        t == u,
{
    assert forall|key: Seq<Component>| has_node(t, key) <==> has_node(u, key) by {
        law_nodes_are_files_and_their_ancestors(t, files, key);
        law_nodes_are_files_and_their_ancestors(u, files, key);
    }
    lemma_same_paths_same_shape(t, u);
    assert forall|n: int| 0 <= n < t.len() implies t[n] == #[trigger] u[n] by {
        assert(same_place(t, u, n));
        if n > 0 {
            assert(t[n].parent == u[n].parent);
            assert(node_of_files(t[n], files));
            assert(node_of_files(u[n], files));
            let i = choose|i: int| node_of_file(t[n], files, i);
            let j = choose|j: int| node_of_file(u[n], files, j);
            assert(node_key(t, n) == node_key(u, n));
            assert(is_prefix(node_key(t, n), components(files[i].path)));
            assert(is_prefix(node_key(t, n), components(files[j].path)));
            if i != j {
                assert(goes_before(file_keys(files), i, j));
                assert(goes_before(file_keys(files), j, i));
                lemma_path_order(file_keys(files)[i], file_keys(files)[j]);
            }
        }
    }
    assert(t =~= u);
}

/// The list has the file, by path and type.
pub open spec fn has_file(files: Seq<FileView>, file: FileView) -> bool {
    exists|i: int|
        0 <= i < files.len() && components((#[trigger] files[i]).path) == components(file.path)
            && files[i].filetype == file.filetype
}

/// No path is listed with two types.
pub open spec fn types_agree(files: Seq<FileView>) -> bool {
    forall|i: int, j: int|
        0 <= i < files.len() && 0 <= j < files.len() && components((#[trigger] files[i]).path)
            == components((#[trigger] files[j]).path) ==> files[i].filetype == files[j].filetype
}

proof fn lemma_same_path_is_absolute(p: Seq<u8>, q: Seq<u8>)
    requires
        components(p) == components(q),
        absolute(p),
    ensures
        absolute(q),
{
    assert(components(p)[0] == Component::Root);
    lemma_starts_with_root(q);
}

proof fn lemma_nodes_carry_over(
    t: Seq<NodeView>,
    u: Seq<NodeView>,
    a: Seq<FileView>,
    b: Seq<FileView>,
    key: Seq<Component>,
)
    requires
        is_tree_of(t, a),
        is_tree_of(u, b),
        forall|i: int| 0 <= i < a.len() ==> has_file(b, #[trigger] a[i]),
        has_node(t, key),
    ensures
        has_node(u, key),
{
    law_nodes_are_files_and_their_ancestors(t, a, key);
    law_nodes_are_files_and_their_ancestors(u, b, key);
    if key != seq![Component::Root] {
        let i = choose|i: int|
            0 <= i < a.len() && absolute(a[i].path) && is_prefix(
                key,
                components((#[trigger] a[i]).path),
            );
        assert(has_file(b, a[i]));
        let j = choose|j: int|
            0 <= j < b.len() && components((#[trigger] b[j]).path) == components(a[i].path)
                && b[j].filetype == a[i].filetype;
        lemma_same_path_is_absolute(a[i].path, b[j].path);
    }
}

/// Where a list has files with the path of a node, and no path with two types, the node is
/// what any of these files is.
proof fn lemma_type_by_any_file(t: Seq<NodeView>, files: Seq<FileView>, n: int, i: int)
    requires
        is_tree_of(t, files),
        types_agree(files),
        0 < n < t.len(),
        0 <= i < files.len(),
        components(files[i].path) == node_key(t, n),
    ensures
        t[n].is_dir == (files[i].filetype == FileType::Dir),
    decreases i,
{
    let key = node_key(t, n);
    if exists|j: int| 0 <= j < i && components((#[trigger] files[j]).path) == key {
        let j = choose|j: int| 0 <= j < i && components((#[trigger] files[j]).path) == key;
        lemma_type_by_any_file(t, files, n, j);
    } else {
        law_own_file_gives_the_type(t, files, n);
    }
}

/// A node with the same path in the trees of two lists with the same files has the same
/// type in both.
proof fn lemma_same_files_same_type(
    t: Seq<NodeView>,
    u: Seq<NodeView>,
    a: Seq<FileView>,
    b: Seq<FileView>,
    n: int,
)
    requires
        is_tree_of(t, a),
        is_tree_of(u, b),
        forall|i: int| 0 <= i < a.len() ==> has_file(b, #[trigger] a[i]),
        forall|j: int| 0 <= j < b.len() ==> has_file(a, #[trigger] b[j]),
        types_agree(a),
        types_agree(b),
        0 < n < t.len(),
        n < u.len(),
        node_key(t, n) == node_key(u, n),
    ensures
        t[n].is_dir == u[n].is_dir,
{
    let key = node_key(t, n);
    if exists|i: int| 0 <= i < a.len() && components((#[trigger] a[i]).path) == key {
        let i = choose|i: int| 0 <= i < a.len() && components((#[trigger] a[i]).path) == key;
        assert(has_file(b, a[i]));
        let j = choose|j: int|
            0 <= j < b.len() && components((#[trigger] b[j]).path) == components(a[i].path)
                && b[j].filetype == a[i].filetype;
        lemma_type_by_any_file(t, a, n, i);
        lemma_type_by_any_file(u, b, n, j);
    } else {
        assert forall|j: int| 0 <= j < b.len() implies components((#[trigger] b[j]).path)
            != key by {
            assert(has_file(a, b[j]));
        }
        law_own_file_gives_the_type(t, a, n);
        law_own_file_gives_the_type(u, b, n);
    }
}

/// Neither the order of the files matters nor how often one is listed: lists with the same
/// files give trees with the same nodes in the same places, of the same types. Only the way
/// in which a path is written can differ. This is said of lists that give no path two types:
/// else the first one counts.
pub proof fn law_order_and_repetition_do_not_matter(
    t: Seq<NodeView>,
    u: Seq<NodeView>,
    a: Seq<FileView>,
    b: Seq<FileView>,
)
    requires
        is_tree_of(t, a),
        is_tree_of(u, b),
        forall|i: int| 0 <= i < a.len() ==> has_file(b, #[trigger] a[i]),
        forall|j: int| 0 <= j < b.len() ==> has_file(a, #[trigger] b[j]),
        types_agree(a),
        types_agree(b),
    ensures
        t.len() == u.len(),
        forall|n: int|
            0 <= n < t.len() ==> #[trigger] same_place(t, u, n) && t[n].is_dir == u[n].is_dir,
{
    assert forall|key: Seq<Component>| has_node(t, key) <==> has_node(u, key) by {
        if has_node(t, key) {
            lemma_nodes_carry_over(t, u, a, b, key);
        }
        if has_node(u, key) {
            lemma_nodes_carry_over(u, t, b, a, key);
        }
    }
    lemma_same_paths_same_shape(t, u);
    assert forall|n: int| 0 <= n < t.len() implies #[trigger] same_place(t, u, n) && t[n].is_dir
        == u[n].is_dir by {
        assert(same_place(t, u, n));
        if n > 0 {
            lemma_same_files_same_type(t, u, a, b, n);
        }
    }
}

/// The first node is the root: a directory with the path and the name `/`, its own parent.
pub proof fn law_root_is_the_first_node(t: Seq<NodeView>)
    requires
        is_tree(t),
    ensures
        t.len() > 0,
        t[0].path == seq![SLASH],
        t[0].name == seq![SLASH],
        t[0].parent == 0,
        t[0].is_dir,
{
}

/// The path of a node is that of its parent with its name as one more component.
pub proof fn law_name_is_the_last_component(t: Seq<NodeView>, n: int)
    requires
        is_tree(t),
        0 < n < t.len(),
    ensures
        0 <= t[n].parent < n,
        absolute(t[n].path),
        components(t[n].path) == components(t[t[n].parent].path).push(
            Component::Normal(t[n].name),
        ),
{
    assert(below_parent(t, n));
}

/// The name of a node is, byte for byte, what stands behind the last slash of its path, where
/// that is a name.
pub proof fn law_name_is_behind_the_last_slash(
    t: Seq<NodeView>,
    n: int,
    d: Seq<u8>,
    name: Seq<u8>,
)
    requires
        is_tree(t),
        0 < n < t.len(),
        t[n].path == d + seq![SLASH] + name,
        name.len() > 0,
        name != seq![DOT],
        name != seq![DOT, DOT],
        !name.contains(SLASH),
    ensures
        t[n].name == name,
{
    law_name_is_the_last_component(t, n);
    let c = components(t[n].path);
    assert(c.last() == Component::Normal(t[n].name));
    if d.len() > 0 {
        law_a_piece_adds_its_component(d, name);
    } else {
        assert(d + seq![SLASH] + name =~= seq![SLASH] + name);
        law_piece_below_the_root(name);
    }
    assert(c.last() == Component::Normal(name));
}

/// The children of a node are all nodes that have it as their parent, each once, in the order
/// of the nodes.
pub proof fn law_children_are_all_that_lie_below(t: Seq<NodeView>, n: int)
    requires
        is_tree(t),
        0 <= n < t.len(),
    ensures
        forall|c: int| #[trigger]
            t[n].children.contains(c) <==> 0 < c < t.len() && t[c].parent == n,
        forall|j: int, k: int|
            0 <= j < k < t[n].children.len() ==> t[n].children[j] < t[n].children[k],
{
    assert(children_listed(t, n));
    let children = t[n].children;
    assert forall|c: int| #[trigger] children.contains(c) <==> 0 < c < t.len() && t[c].parent
        == n by {
        if children.contains(c) {
            let k = choose|k: int| 0 <= k < children.len() && children[k] == c;
            assert(0 < children[k] < t.len());
        }
    }
}

/// The nodes stand in the order of their paths.
pub proof fn law_nodes_are_in_path_order(t: Seq<NodeView>, m: int, n: int)
    requires
        is_tree(t),
        0 <= m < n < t.len(),
    ensures
        path_order(components(t[m].path), components(t[n].path)) == PathOrder::Before,
{
    assert(path_order(node_key(t, m), node_key(t, n)) == PathOrder::Before);
}

/// A path has a node just if it is the root, or starts the path of a file that begins with a
/// slash.
pub proof fn law_shown_are_the_files_and_the_way_to_them(
    t: Seq<NodeView>,
    files: Seq<FileView>,
    key: Seq<Component>,
)
    requires
        is_tree_of(t, files),
    ensures
        (exists|n: int| 0 <= n < t.len() && components((#[trigger] t[n]).path) == key) <==> key
            == seq![Component::Root] || (key.len() > 0 && exists|i: int|
            0 <= i < files.len() && files[i].path.len() > 0 && files[i].path[0] == SLASH
                && key.len() <= components((#[trigger] files[i]).path).len() && key == components(
                files[i].path,
            ).take(key.len() as int)),
{
    law_nodes_are_files_and_their_ancestors(t, files, key);
    if has_node(t, key) {
        let n = choose|n: int| 0 <= n < t.len() && #[trigger] node_key(t, n) == key;
        assert(components(t[n].path) == key);
        if key != seq![Component::Root] {
            let i = choose|i: int|
                0 <= i < files.len() && absolute(files[i].path) && is_prefix(
                    key,
                    components((#[trigger] files[i]).path),
                );
            assert(key.len() <= components(files[i].path).len());
        }
    }
    if exists|n: int| 0 <= n < t.len() && components((#[trigger] t[n]).path) == key {
        let n = choose|n: int| 0 <= n < t.len() && components((#[trigger] t[n]).path) == key;
        assert(node_key(t, n) == key);
    }
    if key.len() > 0 && exists|i: int|
        0 <= i < files.len() && files[i].path.len() > 0 && files[i].path[0] == SLASH && key.len()
            <= components((#[trigger] files[i]).path).len() && key == components(
            files[i].path,
        ).take(key.len() as int) {
        let i = choose|i: int|
            0 <= i < files.len() && files[i].path.len() > 0 && files[i].path[0] == SLASH
                && key.len() <= components((#[trigger] files[i]).path).len() && key == components(
                files[i].path,
            ).take(key.len() as int);
        assert(is_prefix(key, components(files[i].path)));
    }
}

/// Where files have the path of a node, the first of these in the list is the one that the
/// node comes from.
proof fn lemma_own_file_is_the_source(t: Seq<NodeView>, files: Seq<FileView>, n: int, i: int)
    requires
        is_tree_of(t, files),
        0 < n < t.len(),
        0 <= i < files.len(),
        components(files[i].path) == components(t[n].path),
        forall|j: int|
            0 <= j < i ==> components((#[trigger] files[j]).path) != components(t[n].path),
    ensures
        node_of_file(t[n], files, i),
{
    let key = node_key(t, n);
    assert(node_of_files(t[n], files));
    let o = choose|o: int| node_of_file(t[n], files, o);
    let oc = components(files[o].path);
    assert(key =~= key.take(key.len() as int));
    assert(is_prefix(key, components(files[i].path)));
    if o != i {
        assert(goes_before(file_keys(files), o, i));
        lemma_path_order(oc, key);
        if oc == key {
            assert(o < i);
        } else {
            assert(path_order(oc, key) == PathOrder::Before);
            lemma_path_order_prefix(key, oc);
            lemma_path_order(key, oc);
        }
    }
}

/// Every file that begins with a slash is shown, whatever its path: as a node with its path,
/// written as in the list, and with its type, where it is the first with that path and not
/// the root.
pub proof fn law_every_file_is_shown(t: Seq<NodeView>, files: Seq<FileView>, i: int)
    requires
        is_tree_of(t, files),
        0 <= i < files.len(),
        files[i].path.len() > 0,
        files[i].path[0] == SLASH,
        forall|j: int|
            0 <= j < i ==> components((#[trigger] files[j]).path) != components(files[i].path),
    ensures
        exists|n: int|
            0 <= n < t.len() && components((#[trigger] t[n]).path) == components(files[i].path)
                && (n > 0 ==> t[n].path == files[i].path && t[n].is_dir == (files[i].filetype
                == FileType::Dir)),
{
    let c = components(files[i].path);
    assert(file_shown(t, files[i]));
    assert(c.take(c.len() as int) =~= c);
    assert(c[0] == Component::Root);
    assert(has_node(t, c.take(c.len() as int)));
    let n = choose|n: int| 0 <= n < t.len() && #[trigger] node_key(t, n) == c;
    assert(components(t[n].path) == c);
    if n > 0 {
        lemma_own_file_is_the_source(t, files, n, i);
        law_ancestor_is_written_as_in_the_path(files[i].path, c.len() - 1);
    }
}

/// The path of a node is written as the path of a file at or below it starts.
pub proof fn law_node_path_starts_the_path_of_a_file(t: Seq<NodeView>, files: Seq<FileView>, n: int)
    requires
        is_tree_of(t, files),
        0 < n < t.len(),
    ensures
        exists|i: int| 0 <= i < files.len() && t[n].path.is_prefix_of((#[trigger] files[i]).path),
{
    assert(below_parent(t, n));
    assert(node_of_files(t[n], files));
    let i = choose|i: int| node_of_file(t[n], files, i);
    law_ancestor_is_written_as_in_the_path(files[i].path, node_key(t, n).len() - 1);
    assert(t[n].path.is_prefix_of(files[i].path));
}

/// What is shown of a node that no file names: a directory.
pub proof fn law_way_to_a_file_is_a_directory(t: Seq<NodeView>, files: Seq<FileView>, n: int)
    requires
        is_tree_of(t, files),
        0 < n < t.len(),
        forall|i: int|
            0 <= i < files.len() ==> components((#[trigger] files[i]).path) != components(
                t[n].path,
            ),
    ensures
        t[n].is_dir,
{
    law_own_file_gives_the_type(t, files, n);
}

/// The nodes of a list are their names, parents, children, types and paths, one by one and in
/// order.
pub proof fn law_node_values(nodes: Seq<FileNode>, i: int)
    requires
        0 <= i < nodes.len(),
    ensures
        node_views(nodes).len() == nodes.len(),
        node_views(nodes)[i].name == nodes[i].name@,
        node_views(nodes)[i].path == nodes[i].path@,
        node_views(nodes)[i].parent == nodes[i].parent.0,
        node_views(nodes)[i].is_dir == nodes[i].is_dir,
        node_views(nodes)[i].children.len() == nodes[i].children@.len(),
        forall|k: int|
            0 <= k < nodes[i].children@.len() ==> node_views(nodes)[i].children[k]
                == #[trigger] nodes[i].children@[k].0,
{
}

} // verus!
