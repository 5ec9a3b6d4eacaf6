//! The open file handles and the backing ids behind them.
//!
//! A backing id is shared by all handles of one node: it is asked for when the node is
//! first opened and given up when its last handle is released.

use slotmap::{DefaultKey, Key, KeyData, SlotMap};
use std::collections::HashMap;
use vstd::prelude::*;

use crate::ipc::{build_close_request, close_request};
use crate::tree::NodeID;

verus! {

broadcast use vstd::std_specs::hash::group_hash_axioms;

/// A slot map from handles to backing ids. It has a struct of its own, because the type
/// `SlotMap` bounds its keys by a trait of its crate.
#[verifier::external_body]
pub struct Handles {
    map: SlotMap<DefaultKey, u32>,
}

/// What a slot map holds: for each key in use, as a number, the value stored under it.
pub uninterp spec fn slots(h: Handles) -> Map<u64, u32>;

/// The keys that a slot map has issued: for each slot those with the versions up to the one
/// that the slot has now.
pub uninterp spec fn issued_keys(h: Handles) -> Set<u64>;

/// The slot of a key.
pub open spec fn slot_of(key: u64) -> u64 {
    key % 0x1_0000_0000
}

/// The version of a key. Keys have odd versions, and each use of a slot has the next one.
pub open spec fn version_of(key: u64) -> u64 {
    key / 0x1_0000_0000
}

/// The key has the last version that there is. Behind it a slot starts anew.
pub open spec fn is_last(key: u64) -> bool {
    version_of(key) == 0xffff_ffff
}

/// The keys that the slot of this key had before this one are among those issued.
pub open spec fn earlier_issued(issued: Set<u64>, key: u64) -> bool {
    forall|k: u64|
        slot_of(k) == slot_of(key) && version_of(k) % 2 == 1 && version_of(k) < version_of(key)
            ==> #[trigger] issued.contains(k)
}

/// The keys that count as issued once a key is removed: the same, unless its slot starts
/// anew.
pub open spec fn after_removal(issued: Set<u64>, key: u64) -> Set<u64> {
    if is_last(key) {
        issued.filter(|k: u64| slot_of(k) != slot_of(key))
    } else {
        issued
    }
}

/// How many handles there can be at a time.
pub const MAX_HANDLES: u64 = 0xffff_fffe;

/// The key that a handle stands for. The version in the upper half of a key is odd; in a
/// number that is no key it is made so.
pub open spec fn handle_key(fh: u64) -> u64 {
    fh | 0x1_0000_0000
}

/// `SlotMap::new` makes a map that holds nothing and has issued nothing.
#[verifier::external_body]
fn slots_new() -> (h: Handles)
    ensures
        slots(h).dom() == Set::<u64>::empty(),
        issued_keys(h) == Set::<u64>::empty(),
{
    Handles { map: SlotMap::new() }
}

/// `SlotMap::insert` stores the value under a key that is not in use and returns that key,
/// here as the number that `KeyData::as_ffi` makes of it; all other keys keep their values.
/// It panics where as many values are stored as there can be, which the precondition
/// rules out. A key's version is odd. The key has not been issued before, and the slot has
/// issued all versions before it: a slot that is used again gets the next version. Which
/// slot is taken is left open.
#[verifier::external_body]
fn slots_insert(h: &mut Handles, value: u32) -> (key: u64)
    requires
        slots(*old(h)).len() < MAX_HANDLES,
    ensures
        !slots(*old(h)).contains_key(key),
        slots(*final(h)) == slots(*old(h)).insert(key, value),
        handle_key(key) == key,
        !issued_keys(*old(h)).contains(key),
        earlier_issued(issued_keys(*old(h)), key),
        issued_keys(*final(h)) == issued_keys(*old(h)).insert(key),
{
    h.map.insert(value).data().as_ffi()
}

/// `SlotMap::remove` takes the key out of the map and returns its value; where the key is
/// not in use nothing changes. The key is the one that `KeyData::from_ffi` makes of the
/// number, which sets the lowest bit of the version. For a number that is no key this is
/// what the source of slotmap 1.1.1 does; its documentation leaves it open. A key that is
/// removed had been issued, and goes on to count as issued, unless it has the last version:
/// then that of the slot wraps, and its keys can come again.
#[verifier::external_body]
fn slots_remove(h: &mut Handles, fh: u64) -> (r: Option<u32>)
    ensures
        slots(*final(h)) == slots(*old(h)).remove(handle_key(fh)),
        match r {
            Some(value) => slots(*old(h)).contains_key(handle_key(fh)) && slots(
                *old(h),
            )[handle_key(fh)] == value,
            None => !slots(*old(h)).contains_key(handle_key(fh)),
        },
        r is Some ==> issued_keys(*old(h)).contains(handle_key(fh)),
        r is Some ==> issued_keys(*final(h)) == after_removal(
            issued_keys(*old(h)),
            handle_key(fh),
        ),
        r is None ==> issued_keys(*final(h)) == issued_keys(*old(h)),
{
    h.map.remove(KeyData::from_ffi(fh).into())
}

/// `SlotMap::values` visits the value of every key in use, and nothing else. The order of
/// the visit is left open.
#[verifier::external_body]
fn slots_values(h: &Handles) -> (values: Vec<u32>)
    ensures
        forall|v: u32| values@.contains(v) <==> #[trigger] slots(*h).contains_value(v),
{
    h.map.values().copied().collect()
}

/// `SlotMap::len` is the number of keys in use.
#[verifier::external_body]
fn slots_len(h: &Handles) -> (n: usize)
    ensures
        n == slots(*h).len(),
{
    h.map.len()
}

/// Which backing id each open handle and each opened node has.
pub struct HandleView {
    pub handles: Map<u64, u32>,
    pub nodes: Map<usize, u32>,
}

/// The open handles, and the backing ids of the nodes that are open.
pub struct HandleCache {
    by_handle: Handles,
    by_nodeid: HashMap<usize, u32>,
}

impl View for HandleCache {
    type V = HandleView;

    closed spec fn view(&self) -> HandleView {
        HandleView { handles: slots(self.by_handle), nodes: self.by_nodeid@ }
    }
}

/// What comes of opening a node: the handle, the backing id to read through, and what to
/// send to the server, if anything.
pub struct Opened {
    pub fh: u64,
    pub raw_id: u32,
    pub close: Option<[u8; 5]>,
}

/// From one set of issued handles to the next, `fh` is issued: for the first time, and after
/// all that its slot had before.
pub open spec fn issues(before: Set<u64>, after: Set<u64>, fh: u64) -> bool {
    &&& !before.contains(fh)
    &&& earlier_issued(before, fh)
    &&& after == before.insert(fh)
}

/// From one set of issued handles to the next, a handle is released: if it was open it had
/// been issued, and counts as issued from then on too, unless its slot starts anew.
pub open spec fn takes_back(v: HandleView, before: Set<u64>, after: Set<u64>, fh: u64) -> bool {
    if v.handles.contains_key(handle_key(fh)) {
        before.contains(handle_key(fh)) && after == after_removal(before, handle_key(fh))
    } else {
        after == before
    }
}

/// A handle is issued for a backing id.
pub open spec fn with_handle(v: HandleView, fh: u64, raw_id: u32) -> HandleView {
    HandleView { handles: v.handles.insert(fh, raw_id), nodes: v.nodes }
}

/// The backing id that a node is read through once `new_id` has been obtained for it: one
/// that it already has, or else the new one.
pub open spec fn chosen_id(v: HandleView, node: usize, new_id: u32) -> u32 {
    if v.nodes.contains_key(node) {
        v.nodes[node]
    } else {
        new_id
    }
}

/// A node is opened, with `new_id` obtained for it, under the handle `fh`.
pub open spec fn opened(v: HandleView, node: usize, new_id: u32, fh: u64) -> HandleView {
    let raw_id = chosen_id(v, node, new_id);
    HandleView { handles: v.handles.insert(fh, raw_id), nodes: v.nodes.insert(node, raw_id) }
}

/// The backing id that the release of a handle gives up: its own, if no other handle has
/// it.
pub open spec fn given_up(v: HandleView, fh: u64) -> Option<u32> {
    let key = handle_key(fh);
    if v.handles.contains_key(key) && !v.handles.remove(key).contains_value(v.handles[key]) {
        Some(v.handles[key])
    } else {
        None
    }
}

/// A handle of a node is released.
pub open spec fn released(v: HandleView, node: usize, fh: u64) -> HandleView {
    HandleView {
        handles: v.handles.remove(handle_key(fh)),
        nodes: if given_up(v, fh) is Some {
            v.nodes.remove(node)
        } else {
            v.nodes
        },
    }
}

impl HandleCache {
    /// The handles that have been issued, open or released; of each slot those since it
    /// last started anew.
    pub closed spec fn issued(self) -> Set<u64> {
        issued_keys(self.by_handle)
    }

    /// A cache with no open handle.
    pub fn new() -> (r: HandleCache)
        ensures
            r.issued() == Set::<u64>::empty(),
            r@.handles == Map::<u64, u32>::empty(),
            r@.nodes == Map::<usize, u32>::empty(),
    {
        let r = HandleCache { by_handle: slots_new(), by_nodeid: HashMap::new() };
        assert(r@.handles =~= Map::<u64, u32>::empty());
        r
    }

    /// Whether there can be no further handle.
    pub fn is_full(&self) -> (r: bool)
        ensures
            r == (self@.handles.len() >= MAX_HANDLES),
    {
        slots_len(&self.by_handle) as u64 >= MAX_HANDLES
    }

    /// Issues a handle for a backing id: one that is not open, and that was not issued
    /// before.
    pub fn new_handle(&mut self, raw_id: u32) -> (fh: u64)
        requires
            old(self)@.handles.len() < MAX_HANDLES,
        ensures
            !old(self)@.handles.contains_key(fh),
            final(self)@ == with_handle(old(self)@, fh, raw_id),
            handle_key(fh) == fh,
            issues(old(self).issued(), final(self).issued(), fh),
    {
        slots_insert(&mut self.by_handle, raw_id)
    }

    /// Whether a node has a backing id.
    pub fn has_node(&self, node_id: NodeID) -> (r: bool)
        ensures
            r == self@.nodes.contains_key(node_id.0),
    {
        self.by_nodeid.contains_key(&node_id.0)
    }

    /// Opens a node that already has a backing id: a further handle for it. `None`, and
    /// nothing done, where the node has none.
    pub fn open_cached(&mut self, node_id: NodeID) -> (r: Option<Opened>)
        requires
            old(self)@.nodes.contains_key(node_id.0) ==> old(self)@.handles.len() < MAX_HANDLES,
        ensures
            match r {
                Some(o) => {
                    &&& old(self)@.nodes.contains_key(node_id.0)
                    &&& o.raw_id == old(self)@.nodes[node_id.0]
                    &&& o.close is None
                    &&& !old(self)@.handles.contains_key(o.fh)
                    &&& handle_key(o.fh) == o.fh
                    &&& final(self)@ == with_handle(old(self)@, o.fh, o.raw_id)
                    &&& issues(old(self).issued(), final(self).issued(), o.fh)
                },
                None => {
                    &&& !old(self)@.nodes.contains_key(node_id.0)
                    &&& *final(self) == *old(self)
                },
            },
    {
        match self.by_nodeid.get(&node_id.0) {
            Some(id) => {
                let raw_id = *id;
                let fh = self.new_handle(raw_id);
                Some(Opened { fh, raw_id, close: None })
            },
            None => None,
        }
    }

    /// Opens a node for which the server has given the backing id `new_id`. Where the node
    /// has got another one in the meantime, that one is used and the new one given up.
    pub fn open_with(&mut self, node_id: NodeID, new_id: u32) -> (o: Opened)
        requires
            old(self)@.handles.len() < MAX_HANDLES,
        ensures
            o.raw_id == chosen_id(old(self)@, node_id.0, new_id),
            match o.close {
                Some(msg) => old(self)@.nodes.contains_key(node_id.0) && msg@ == close_request(
                    new_id,
                ),
                None => !old(self)@.nodes.contains_key(node_id.0),
            },
            !old(self)@.handles.contains_key(o.fh),
            handle_key(o.fh) == o.fh,
            final(self)@ == opened(old(self)@, node_id.0, new_id, o.fh),
            issues(old(self).issued(), final(self).issued(), o.fh),
    {
        let known: Option<u32> = match self.by_nodeid.get(&node_id.0) {
            Some(id) => Some(*id),
            None => None,
        };
        let ghost before = self@;
        let (raw_id, close): (u32, Option<[u8; 5]>) = match known {
            Some(id) => (id, Some(build_close_request(new_id))),
            None => {
                self.by_nodeid.insert(node_id.0, new_id);
                (new_id, None)
            },
        };
        let fh = self.new_handle(raw_id);
        assert(self@.nodes =~= opened(before, node_id.0, new_id, fh).nodes);
        Opened { fh, raw_id, close }
    }

    /// Releases a handle of a node. The result is what to send to the server: a request
    /// to close the backing id, where no handle is left that has it.
    pub fn release(&mut self, node_id: NodeID, fh: u64) -> (close: Option<[u8; 5]>)
        ensures
            final(self)@ == released(old(self)@, node_id.0, fh),
            takes_back(old(self)@, old(self).issued(), final(self).issued(), fh),
            match close {
                Some(msg) => given_up(old(self)@, fh) is Some && msg@ == close_request(
                    given_up(old(self)@, fh)->0,
                ),
                None => given_up(old(self)@, fh) is None,
            },
    {
        match slots_remove(&mut self.by_handle, fh) {
            Some(raw_id) => {
                if self.in_use(raw_id) {
                    None
                } else {
                    self.by_nodeid.remove(&node_id.0);
                    Some(build_close_request(raw_id))
                }
            },
            None => {
                assert(self@.handles =~= old(self)@.handles);
                None
            },
        }
    }

    /// Whether an open handle has the backing id.
    fn in_use(&self, raw_id: u32) -> (r: bool)
        ensures
            r == self@.handles.contains_value(raw_id),
    {
        let values = slots_values(&self.by_handle);
        let mut i: usize = 0;
        while i < values.len()
            invariant
                i <= values@.len(),
                values@.contains(raw_id) == self@.handles.contains_value(raw_id),
                forall|k: int| 0 <= k < i ==> values@[k] != raw_id,
            decreases values@.len() - i,
        {
            if values[i] == raw_id {
                assert(values@.contains(raw_id));
                return true;
            }
            i = i + 1;
        }
        assert(!values@.contains(raw_id));
        false
    }
}

/// The handles and the nodes go together: a node has a backing id just as long as a handle
/// with that id is open, and no two nodes share one.
pub open spec fn paired(v: HandleView) -> bool {
    &&& forall|node: usize| #[trigger]
        v.nodes.contains_key(node) ==> v.handles.contains_value(v.nodes[node])
    &&& forall|fh: u64| #[trigger]
        v.handles.contains_key(fh) ==> v.nodes.contains_value(v.handles[fh])
    &&& forall|m: usize, n: usize| #[trigger]
        v.nodes.contains_key(m) && #[trigger] v.nodes.contains_key(n) && v.nodes[m] == v.nodes[n]
            ==> m == n
}

/// With nothing open, handles and nodes go together.
pub proof fn law_empty_is_paired(v: HandleView)
    requires
        v.handles == Map::<u64, u32>::empty(),
        v.nodes == Map::<usize, u32>::empty(),
    ensures
        paired(v),
{
}

proof fn lemma_value_kept<K>(m: Map<K, u32>, key: K, value: u32, other: u32)
    requires
        m.contains_value(other),
        !m.contains_key(key) || m[key] == value,
    ensures
        m.insert(key, value).contains_value(other),
{
    let k = choose|k: K| #[trigger] m.contains_key(k) && m[k] == other;
    assert(m.insert(key, value).contains_key(k));
    assert(m.insert(key, value)[k] == other);
}

/// A node opened through a backing id that it already has: handles and nodes still go
/// together.
pub proof fn law_open_cached_keeps_pairing(v: HandleView, node: usize, fh: u64)
    requires
        paired(v),
        v.nodes.contains_key(node),
        !v.handles.contains_key(fh),
    ensures
        paired(with_handle(v, fh, v.nodes[node])),
{
    let w = with_handle(v, fh, v.nodes[node]);
    assert forall|n: usize| #[trigger] w.nodes.contains_key(n) implies w.handles.contains_value(
        w.nodes[n],
    ) by {
        lemma_value_kept(v.handles, fh, v.nodes[node], v.nodes[n]);
    }
    assert forall|h: u64| #[trigger] w.handles.contains_key(h) implies w.nodes.contains_value(
        w.handles[h],
    ) by {
        if h != fh {
            assert(v.handles.contains_key(h));
        }
    }
}

/// A node opened with a backing id from the server, one that is not in use: handles and
/// nodes still go together.
pub proof fn law_open_keeps_pairing(v: HandleView, node: usize, new_id: u32, fh: u64)
    requires
        paired(v),
        !v.handles.contains_key(fh),
        v.nodes.contains_key(node) || !v.nodes.contains_value(new_id),
    ensures
        paired(opened(v, node, new_id, fh)),
{
    let w = opened(v, node, new_id, fh);
    let raw_id = chosen_id(v, node, new_id);
    assert(w.handles.contains_key(fh) && w.handles[fh] == raw_id);
    assert(w.nodes.contains_key(node) && w.nodes[node] == raw_id);
    assert forall|n: usize| #[trigger] w.nodes.contains_key(n) implies w.handles.contains_value(
        w.nodes[n],
    ) by {
        if n != node {
            assert(v.nodes.contains_key(n));
            lemma_value_kept(v.handles, fh, raw_id, v.nodes[n]);
        }
    }
    assert forall|h: u64| #[trigger] w.handles.contains_key(h) implies w.nodes.contains_value(
        w.handles[h],
    ) by {
        if h != fh {
            assert(v.handles.contains_key(h));
            lemma_value_kept(v.nodes, node, raw_id, v.handles[h]);
        }
    }
    assert forall|m: usize, n: usize| #[trigger]
        w.nodes.contains_key(m) && #[trigger] w.nodes.contains_key(n) && w.nodes[m]
            == w.nodes[n] implies m == n by {
        if m != node {
            assert(v.nodes.contains_key(m));
        }
        if n != node {
            assert(v.nodes.contains_key(n));
        }
    }
}

/// A handle released for the node that it was opened for: handles and nodes still go
/// together.
pub proof fn law_release_keeps_pairing(v: HandleView, node: usize, fh: u64)
    requires
        paired(v),
        v.handles.contains_key(handle_key(fh)) ==> v.nodes.contains_key(node) && v.nodes[node]
            == v.handles[handle_key(fh)],
    ensures
        paired(released(v, node, fh)),
{
    let w = released(v, node, fh);
    let key = handle_key(fh);
    if !v.handles.contains_key(key) {
        assert(w.handles =~= v.handles);
    } else {
        let raw_id = v.handles[key];
        assert forall|n: usize| #[trigger] w.nodes.contains_key(n) implies w.handles.contains_value(
            w.nodes[n],
        ) by {
            assert(v.nodes.contains_key(n));
            let h = choose|h: u64| #[trigger]
                v.handles.contains_key(h) && v.handles[h] == v.nodes[n];
            if h != key {
                assert(w.handles.contains_key(h));
            } else {
                assert(n == node);
                assert(w.handles.contains_value(raw_id));
            }
        }
        assert forall|h: u64| #[trigger] w.handles.contains_key(h) implies w.nodes.contains_value(
            w.handles[h],
        ) by {
            assert(v.handles.contains_key(h));
            let n = choose|n: usize| #[trigger] v.nodes.contains_key(n) && v.nodes[n] == v.handles[h];
            if given_up(v, fh) is Some && n == node {
                assert(w.handles.contains_value(raw_id));
            }
            assert(w.nodes.contains_key(n));
        }
        assert forall|m: usize, n: usize| #[trigger]
            w.nodes.contains_key(m) && #[trigger] w.nodes.contains_key(n) && w.nodes[m]
                == w.nodes[n] implies m == n by {
            assert(v.nodes.contains_key(m));
            assert(v.nodes.contains_key(n));
        }
    }
}

/// A backing id that is given up is no longer used: no handle and no node has it.
pub proof fn law_given_up_id_is_unused(v: HandleView, node: usize, fh: u64)
    requires
        paired(v),
        given_up(v, fh) is Some,
        v.nodes.contains_key(node),
        v.nodes[node] == v.handles[handle_key(fh)],
    ensures
        !released(v, node, fh).handles.contains_value(given_up(v, fh)->0),
        !released(v, node, fh).nodes.contains_value(given_up(v, fh)->0),
{
    let w = released(v, node, fh);
    let raw_id = given_up(v, fh)->0;
    if w.nodes.contains_value(raw_id) {
        let n = choose|n: usize| #[trigger] w.nodes.contains_key(n) && w.nodes[n] == raw_id;
        assert(v.nodes.contains_key(n));
    }
}

/// Releasing the one handle of a node undoes the opening: all is as before, and the
/// backing id obtained for it is given up.
pub proof fn law_release_undoes_open(v: HandleView, node: usize, new_id: u32, fh: u64)
    requires
        !v.nodes.contains_key(node),
        !v.handles.contains_key(fh),
        !v.handles.contains_value(new_id),
        handle_key(fh) == fh,
    ensures
        released(opened(v, node, new_id, fh), node, fh) == v,
        given_up(opened(v, node, new_id, fh), fh) == Some(new_id),
{
    let w = opened(v, node, new_id, fh);
    assert(w.handles.remove(fh) =~= v.handles);
    assert(w.nodes.remove(node) =~= v.nodes);
}

/// Releasing a further handle of a node undoes that opening, and gives up nothing.
pub proof fn law_release_undoes_open_cached(v: HandleView, node: usize, fh: u64)
    requires
        paired(v),
        v.nodes.contains_key(node),
        !v.handles.contains_key(fh),
        handle_key(fh) == fh,
    ensures
        released(with_handle(v, fh, v.nodes[node]), node, fh) == v,
        given_up(with_handle(v, fh, v.nodes[node]), fh) is None,
{
    let w = with_handle(v, fh, v.nodes[node]);
    assert(w.handles.remove(fh) =~= v.handles);
    assert(v.handles.contains_value(v.nodes[node]));
}

/// A handle that is not open can be released: nothing changes.
pub proof fn law_release_of_unknown_handle(v: HandleView, node: usize, fh: u64)
    requires
        !v.handles.contains_key(handle_key(fh)),
    ensures
        released(v, node, fh) == v,
        given_up(v, fh) is None,
{
    assert(v.handles.remove(handle_key(fh)) =~= v.handles);
}

/// Opening a node adds one handle, for the backing id that the node has or else for the new
/// one, and leaves all other handles and nodes as they were.
pub proof fn law_open_adds_one_handle(v: HandleView, node: usize, new_id: u32, fh: u64)
    ensures
        ({
            let w = opened(v, node, new_id, fh);
            let id = if v.nodes.contains_key(node) {
                v.nodes[node]
            } else {
                new_id
            };
            &&& chosen_id(v, node, new_id) == id
            &&& w.handles.contains_key(fh) && w.handles[fh] == id
            &&& w.nodes.contains_key(node) && w.nodes[node] == id
            &&& forall|h: u64|
                h != fh ==> (#[trigger] w.handles.contains_key(h) <==> v.handles.contains_key(h))
            &&& forall|h: u64|
                h != fh && v.handles.contains_key(h) ==> #[trigger] w.handles[h] == v.handles[h]
            &&& forall|n: usize|
                n != node ==> (#[trigger] w.nodes.contains_key(n) <==> v.nodes.contains_key(n))
            &&& forall|n: usize|
                n != node && v.nodes.contains_key(n) ==> #[trigger] w.nodes[n] == v.nodes[n]
        }),
{
}

/// A further handle is added to those that there are, and nothing else changes.
pub proof fn law_further_handle_changes_nothing_else(v: HandleView, fh: u64, raw_id: u32)
    ensures
        ({
            let w = with_handle(v, fh, raw_id);
            &&& w.nodes == v.nodes
            &&& w.handles.contains_key(fh) && w.handles[fh] == raw_id
            &&& forall|h: u64|
                h != fh ==> (#[trigger] w.handles.contains_key(h) <==> v.handles.contains_key(h))
            &&& forall|h: u64|
                h != fh && v.handles.contains_key(h) ==> #[trigger] w.handles[h] == v.handles[h]
        }),
{
}

/// Releasing a handle takes away that one and no other. Its backing id is given up just if no
/// other handle has it, and just then the node is forgotten; no other node ever is.
pub proof fn law_release_takes_away_one_handle(v: HandleView, node: usize, fh: u64)
    ensures
        ({
            let w = released(v, node, fh);
            let key = handle_key(fh);
            let last = v.handles.contains_key(key) && forall|h: u64|
                h != key && v.handles.contains_key(h) ==> #[trigger] v.handles[h] != v.handles[key];
            &&& forall|h: u64| #[trigger]
                w.handles.contains_key(h) <==> h != key && v.handles.contains_key(h)
            &&& forall|h: u64|
                h != key && v.handles.contains_key(h) ==> #[trigger] w.handles[h] == v.handles[h]
            &&& last ==> given_up(v, fh) == Some(v.handles[key])
            &&& !last ==> given_up(v, fh) is None
            &&& forall|n: usize| #[trigger]
                w.nodes.contains_key(n) <==> v.nodes.contains_key(n) && !(last && n == node)
            &&& forall|n: usize| w.nodes.contains_key(n) ==> #[trigger] w.nodes[n] == v.nodes[n]
        }),
{
    let key = handle_key(fh);
    let others = v.handles.remove(key);
    if v.handles.contains_key(key) {
        if others.contains_value(v.handles[key]) {
            let h = choose|h: u64| #[trigger]
                others.contains_key(h) && others[h] == v.handles[key];
            assert(v.handles[h] == v.handles[key]);
        }
        if exists|h: u64|
            h != key && v.handles.contains_key(h) && #[trigger] v.handles[h] == v.handles[key] {
            let h = choose|h: u64|
                h != key && v.handles.contains_key(h) && #[trigger] v.handles[h] == v.handles[key];
            assert(others.contains_key(h) && others[h] == v.handles[key]);
        }
    }
}

/// The key that a handle stands for differs from it in one bit at most, that which makes the
/// version odd.
pub proof fn law_handle_is_its_key_with_an_odd_version(fh: u64)
    ensures
        (fh >> 32) & 1 == 1 ==> handle_key(fh) == fh,
        (fh >> 32) & 1 == 0 ==> handle_key(fh) == fh + 0x1_0000_0000,
{
    assert((fh >> 32) & 1 == 1 ==> fh | 0x1_0000_0000 == fh) by (bit_vector);
    assert((fh >> 32) & 1 == 0 ==> fh | 0x1_0000_0000 == fh + 0x1_0000_0000) by (bit_vector);
}

} // verus!
