//! The indices of a list of paths, put in the order of the paths.

use vstd::prelude::*;
use vstd::set_lib::{lemma_int_range, set_int_range};

use crate::path::{
    compare, components, lemma_path_order, lemma_path_order_transitive, path_order, Component,
    PathOrder,
};

verus! {

/// The byte strings behind a list of slices.
pub open spec fn slices(paths: Seq<&[u8]>) -> Seq<Seq<u8>> {
    Seq::new(paths.len(), |i: int| paths[i]@)
}

/// The components of each path of a list.
pub open spec fn keys(paths: Seq<Seq<u8>>) -> Seq<Seq<Component>> {
    Seq::new(paths.len(), |i: int| components(paths[i]))
}

/// Item `i` is listed before item `j`: its path comes first, or it is the same path and
/// it came first.
pub open spec fn goes_before(keys: Seq<Seq<Component>>, i: int, j: int) -> bool {
    match path_order(keys[i], keys[j]) {
        PathOrder::Before => true,
        PathOrder::Same => i < j,
        PathOrder::After => false,
    }
}

/// Each index stands before those that follow it.
pub open spec fn in_order(keys: Seq<Seq<Component>>, order: Seq<usize>) -> bool {
    forall|a: int, b: int|
        0 <= a < b < order.len() ==> goes_before(keys, order[a] as int, order[b] as int)
}

/// The index is among those listed.
pub open spec fn lists(order: Seq<usize>, i: int) -> bool {
    exists|a: int| 0 <= a < order.len() && #[trigger] order[a] == i
}

/// The indices are exactly those from `lo` up to `hi`.
pub open spec fn covers(order: Seq<usize>, lo: int, hi: int) -> bool {
    &&& forall|a: int| 0 <= a < order.len() ==> lo <= #[trigger] order[a] < hi
    &&& forall|i: int| lo <= i < hi ==> #[trigger] lists(order, i)
}

/// `order` lists all items, by path, and items with the same path as they came.
pub open spec fn is_stable_order(keys: Seq<Seq<Component>>, order: Seq<usize>) -> bool {
    &&& in_order(keys, order)
    &&& covers(order, 0, keys.len() as int)
}

proof fn lemma_goes_before_transitive(keys: Seq<Seq<Component>>, i: int, j: int, k: int)
    requires
        goes_before(keys, i, j),
        goes_before(keys, j, k),
    ensures
        goes_before(keys, i, k),
{
    lemma_path_order(keys[i], keys[j]);
    lemma_path_order(keys[j], keys[k]);
    if path_order(keys[i], keys[j]) == PathOrder::Before && path_order(keys[j], keys[k])
        == PathOrder::Before {
        lemma_path_order_transitive(keys[i], keys[j], keys[k]);
    }
}

fn merge(paths: &Vec<&[u8]>, left: &Vec<usize>, right: &Vec<usize>, Ghost(mid): Ghost<int>) -> (out:
    Vec<usize>)
    requires
        in_order(keys(slices(paths@)), left@),
        in_order(keys(slices(paths@)), right@),
        forall|a: int| 0 <= a < left@.len() ==> #[trigger] left@[a] < mid,
        forall|a: int| 0 <= a < right@.len() ==> mid <= #[trigger] right@[a] < paths@.len(),
        mid <= paths@.len(),
    ensures
        in_order(keys(slices(paths@)), out@),
        forall|a: int|
            0 <= a < out@.len() ==> left@.contains(#[trigger] out@[a]) || right@.contains(out@[a]),
        forall|a: int| 0 <= a < left@.len() ==> out@.contains(#[trigger] left@[a]),
        forall|a: int| 0 <= a < right@.len() ==> out@.contains(#[trigger] right@[a]),
{
    let ghost keys = keys(slices(paths@));
    let mut out: Vec<usize> = Vec::new();
    let mut i: usize = 0;
    let mut j: usize = 0;
    while i < left.len() || j < right.len()
        invariant
            keys == self::keys(slices(paths@)),
            i <= left@.len(),
            j <= right@.len(),
            in_order(keys, left@),
            in_order(keys, right@),
            in_order(keys, out@),
            forall|a: int| 0 <= a < left@.len() ==> #[trigger] left@[a] < mid,
            forall|a: int| 0 <= a < right@.len() ==> mid <= #[trigger] right@[a] < paths@.len(),
            mid <= paths@.len(),
            forall|a: int, b: int|
                0 <= a < out@.len() && i <= b < left@.len() ==> goes_before(
                    keys,
                    #[trigger] out@[a] as int,
                    #[trigger] left@[b] as int,
                ),
            forall|a: int, b: int|
                0 <= a < out@.len() && j <= b < right@.len() ==> goes_before(
                    keys,
                    #[trigger] out@[a] as int,
                    #[trigger] right@[b] as int,
                ),
            forall|a: int|
                0 <= a < out@.len() ==> left@.contains(#[trigger] out@[a]) || right@.contains(
                    out@[a],
                ),
            forall|a: int| 0 <= a < i ==> out@.contains(#[trigger] left@[a]),
            forall|a: int| 0 <= a < j ==> out@.contains(#[trigger] right@[a]),
        decreases left@.len() - i + right@.len() - j,
    {
        let take_left = if i >= left.len() {
            false
        } else if j >= right.len() {
            true
        } else {
            compare(paths[left[i]], paths[right[j]]) != PathOrder::After
        };
        let ghost before = out@;
        let ghost next: usize;
        if take_left {
            proof {
                next = left@[i as int];
                assert forall|b: int| j <= b < right@.len() implies goes_before(
                    keys,
                    next as int,
                    #[trigger] right@[b] as int,
                ) by {
                    if b > j {
                        lemma_goes_before_transitive(
                            keys,
                            next as int,
                            right@[j as int] as int,
                            right@[b] as int,
                        );
                    }
                }
            }
            out.push(left[i]);
            i = i + 1;
        } else {
            proof {
                next = right@[j as int];
                assert forall|b: int| i <= b < left@.len() implies goes_before(
                    keys,
                    next as int,
                    #[trigger] left@[b] as int,
                ) by {
                    lemma_path_order(keys[left@[i as int] as int], keys[next as int]);
                    if b > i {
                        lemma_goes_before_transitive(
                            keys,
                            next as int,
                            left@[i as int] as int,
                            left@[b] as int,
                        );
                    }
                }
            }
            out.push(right[j]);
            j = j + 1;
        }
        proof {
            assert(out@ == before.push(next));
            assert(out@[before.len() as int] == next);
            assert forall|v: usize| before.contains(v) implies #[trigger] out@.contains(v) by {
                let k = choose|k: int| 0 <= k < before.len() && before[k] == v;
                assert(out@[k] == v);
            }
        }
    }
    out
}

fn order_range(paths: &Vec<&[u8]>, lo: usize, hi: usize) -> (out: Vec<usize>)
    requires
        lo <= hi <= paths@.len(),
    ensures
        in_order(keys(slices(paths@)), out@),
        covers(out@, lo as int, hi as int),
    decreases hi - lo,
{
    if hi - lo <= 1 {
        let mut out: Vec<usize> = Vec::new();
        if lo < hi {
            out.push(lo);
            assert(out@[0] == lo);
        }
        return out;
    }
    let mid = lo + (hi - lo) / 2;
    let left = order_range(paths, lo, mid);
    let right = order_range(paths, mid, hi);
    let out = merge(paths, &left, &right, Ghost(mid as int));
    proof {
        assert forall|i: int| lo <= i < hi implies #[trigger] lists(out@, i) by {
            if i < mid {
                assert(lists(left@, i));
                let a = choose|a: int| 0 <= a < left@.len() && #[trigger] left@[a] == i;
                assert(out@.contains(left@[a]));
            } else {
                assert(lists(right@, i));
                let a = choose|a: int| 0 <= a < right@.len() && #[trigger] right@[a] == i;
                assert(out@.contains(right@[a]));
            }
        }
    }
    out
}

/// The indices of the paths, in the order of the paths; equal paths keep their order.
pub fn stable_order(paths: &Vec<&[u8]>) -> (order: Vec<usize>)
    ensures
        is_stable_order(keys(slices(paths@)), order@),
{
    order_range(paths, 0, paths.len())
}

/// The items of a list are put in the order of their paths, each once and none left out;
/// items with the same path stay as they came.
pub proof fn law_each_item_is_listed_once_in_order(keys: Seq<Seq<Component>>, order: Seq<usize>)
    requires
        is_stable_order(keys, order),
    ensures
        order.len() == keys.len(),
        forall|i: usize| i < keys.len() ==> #[trigger] order.contains(i),
        forall|a: int| 0 <= a < order.len() ==> (#[trigger] order[a]) < keys.len(),
        forall|a: int, b: int|
            0 <= a < b < order.len() ==> order[a] != order[b] && match path_order(
                keys[#[trigger] order[a] as int],
                keys[#[trigger] order[b] as int],
            ) {
                PathOrder::Before => true,
                PathOrder::Same => order[a] < order[b],
                PathOrder::After => false,
            },
{
    assert forall|a: int, b: int| 0 <= a < b < order.len() implies order[a] != order[b]
        && match path_order(
        keys[#[trigger] order[a] as int],
        keys[#[trigger] order[b] as int],
    ) {
        PathOrder::Before => true,
        PathOrder::Same => order[a] < order[b],
        PathOrder::After => false,
    } by {
        assert(goes_before(keys, order[a] as int, order[b] as int));
        lemma_path_order(keys[order[a] as int], keys[order[b] as int]);
    }
    assert forall|i: usize| i < keys.len() implies #[trigger] order.contains(i) by {
        assert(lists(order, i as int));
        let a = choose|a: int| 0 <= a < order.len() && #[trigger] order[a] == i;
        assert(order[a] == i);
    }
    assert(order.no_duplicates()) by {
        assert forall|a: int, b: int|
            0 <= a < order.len() && 0 <= b < order.len() && a != b implies order[a] != order[b] by {
            if a < b {
                assert(order[a] != order[b]);
            } else {
                assert(order[b] != order[a]);
            }
        }
    }
    lemma_indices_counted(order, keys.len());
}

/// A list of all numbers below `n`, none twice, has `n` items.
proof fn lemma_indices_counted(order: Seq<usize>, n: nat)
    requires
        order.no_duplicates(),
        forall|a: int| 0 <= a < order.len() ==> (#[trigger] order[a]) < n,
        forall|i: usize| i < n ==> #[trigger] order.contains(i),
        forall|i: int| 0 <= i < n ==> #[trigger] lists(order, i),
    ensures
        order.len() == n,
{
    let as_ints = order.map(|a: int, v: usize| v as int);
    assert(as_ints.no_duplicates());
    let all = set_int_range(0, n as int);
    lemma_int_range(0, n as int);
    assert(as_ints.to_set() =~= all) by {
        assert forall|i: int| all.contains(i) implies as_ints.contains(i) by {
            assert(lists(order, i));
            let a = choose|a: int| 0 <= a < order.len() && #[trigger] order[a] == i;
            assert(as_ints[a] == i);
        }
        assert forall|i: int| as_ints.contains(i) implies all.contains(i) by {
            let a = choose|a: int| 0 <= a < as_ints.len() && as_ints[a] == i;
            assert(order[a] < n);
        }
    }
    as_ints.unique_seq_to_set();
}

/// The paths behind a list, and their components, one by one and in order.
pub proof fn law_keys_are_the_components(paths: Seq<&[u8]>, texts: Seq<Seq<u8>>, i: int)
    ensures
        slices(paths).len() == paths.len(),
        keys(texts).len() == texts.len(),
        0 <= i < paths.len() ==> slices(paths)[i] == paths[i]@,
        0 <= i < texts.len() ==> keys(texts)[i] == components(texts[i]),
{
}

} // verus!
