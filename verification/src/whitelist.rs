//! The paths that the privileged server is allowed to open.

use vstd::prelude::*;

use crate::ipc::views;
use crate::order::{goes_before, in_order, is_stable_order, keys, lists, slices, stable_order};
use crate::path::{
    compare, components, lemma_path_order, lemma_path_order_transitive, path_order, Component,
    PathOrder,
};

verus! {

/// A set of paths. Two ways to write one path are one member.
pub struct Whitelist {
    paths: Vec<Vec<u8>>,
    order: Vec<usize>,
}

impl View for Whitelist {
    type V = Set<Seq<Component>>;

    closed spec fn view(&self) -> Set<Seq<Component>> {
        keys(views(self.paths@)).to_set()
    }
}

/// With the `m`-th path in order before the one looked for, so are those listed earlier.
proof fn lemma_before(keys: Seq<Seq<Component>>, order: Seq<usize>, m: int, t: Seq<Component>)
    requires
        in_order(keys, order),
        0 <= m < order.len(),
        path_order(keys[order[m] as int], t) == PathOrder::Before,
    ensures
        forall|a: int|
            0 <= a <= m ==> path_order(keys[#[trigger] order[a] as int], t) == PathOrder::Before,
{
    assert forall|a: int| 0 <= a <= m implies path_order(keys[#[trigger] order[a] as int], t)
        == PathOrder::Before by {
        if a < m {
            let x = keys[order[a] as int];
            let y = keys[order[m] as int];
            assert(goes_before(keys, order[a] as int, order[m] as int));
            lemma_path_order(x, y);
            if path_order(x, y) == PathOrder::Before {
                lemma_path_order_transitive(x, y, t);
            }
        }
    }
}

/// With the `m`-th path in order after the one looked for, so are those listed later.
proof fn lemma_after(keys: Seq<Seq<Component>>, order: Seq<usize>, m: int, t: Seq<Component>)
    requires
        in_order(keys, order),
        0 <= m < order.len(),
        path_order(keys[order[m] as int], t) == PathOrder::After,
    ensures
        forall|a: int|
            m <= a < order.len() ==> path_order(keys[#[trigger] order[a] as int], t)
                == PathOrder::After,
{
    assert forall|a: int| m <= a < order.len() implies path_order(keys[#[trigger] order[a] as int], t)
        == PathOrder::After by {
        if m < a {
            let x = keys[order[a] as int];
            let y = keys[order[m] as int];
            assert(goes_before(keys, order[m] as int, order[a] as int));
            lemma_path_order(y, x);
            lemma_path_order(y, t);
            lemma_path_order(t, x);
            if path_order(y, x) == PathOrder::Before {
                lemma_path_order_transitive(t, y, x);
            }
        }
    }
}

impl Whitelist {
    #[verifier::type_invariant]
    spec fn sorted(self) -> bool {
        is_stable_order(keys(views(self.paths@)), self.order@)
    }

    /// The set of the given paths.
    pub fn new(paths: Vec<Vec<u8>>) -> (w: Whitelist)
        ensures
            w@ == keys(views(paths@)).to_set(),
    {
        let mut refs: Vec<&[u8]> = Vec::new();
        let mut i: usize = 0;
        while i < paths.len()
            invariant
                i <= paths@.len(),
                refs@.len() == i,
                forall|k: int| 0 <= k < i ==> (#[trigger] refs@[k])@ == paths@[k]@,
            decreases paths@.len() - i,
        {
            refs.push(paths[i].as_slice());
            i = i + 1;
        }
        let order = stable_order(&refs);
        assert(slices(refs@) =~= views(paths@));
        Whitelist { paths, order }
    }

    /// Whether the path is a member.
    pub fn contains(&self, path: &[u8]) -> (r: bool)
        ensures
            r == self@.contains(components(path@)),
    {
        proof {
            use_type_invariant(self);
        }
        let ghost keys = keys(views(self.paths@));
        let ghost order = self.order@;
        let ghost t = components(path@);
        let mut lo: usize = 0;
        let mut hi: usize = self.order.len();
        while lo < hi
            invariant
                lo <= hi <= order.len(),
                keys == crate::order::keys(views(self.paths@)),
                order == self.order@,
                t == components(path@),
                is_stable_order(keys, order),
                forall|a: int|
                    0 <= a < lo ==> path_order(keys[#[trigger] order[a] as int], t)
                        == PathOrder::Before,
                forall|a: int|
                    hi <= a < order.len() ==> path_order(keys[#[trigger] order[a] as int], t)
                        == PathOrder::After,
            decreases hi - lo,
        {
            let mid = lo + (hi - lo) / 2;
            let at = self.order[mid];
            match compare(self.paths[at].as_slice(), path) {
                PathOrder::Same => {
                    proof {
                        lemma_path_order(keys[at as int], t);
                        assert(keys.contains(t));
                    }
                    return true;
                },
                PathOrder::Before => {
                    proof {
                        lemma_before(keys, order, mid as int, t);
                    }
                    lo = mid + 1;
                },
                PathOrder::After => {
                    proof {
                        lemma_after(keys, order, mid as int, t);
                    }
                    hi = mid;
                },
            }
        }
        proof {
            if keys.contains(t) {
                let i = choose|i: int| 0 <= i < keys.len() && keys[i] == t;
                assert(lists(order, i));
                let a = choose|a: int| 0 <= a < order.len() && #[trigger] order[a] == i;
                lemma_path_order(t, t);
                assert(path_order(keys[order[a] as int], t) == PathOrder::Same);
            }
        }
        false
    }
}

} // verus!
