//! When a handle can be issued again: hardly ever.

use vstd::prelude::*;
use vstd::set_lib::lemma_len_subset;

use crate::handles::{
    after_removal, earlier_issued, handle_key, is_last, issues, slot_of, takes_back, version_of,
    HandleView,
};

verus! {

/// How many handles a slot issues before it starts anew.
pub const VERSIONS: u64 = 0x8000_0000;

/// A handle that was open does not come back once it is released: what is issued next is
/// another one, and the released one still counts as issued. This is said of all handles but
/// the last of a slot, behind which the slot starts anew.
pub proof fn law_released_handle_is_not_issued_again(
    v: HandleView,
    before: Set<u64>,
    between: Set<u64>,
    after: Set<u64>,
    fh: u64,
    next: u64,
)
    requires
        v.handles.contains_key(handle_key(fh)),
        takes_back(v, before, between, fh),
        issues(between, after, next),
        !is_last(handle_key(fh)),
    ensures
        next != handle_key(fh),
        after.contains(handle_key(fh)),
{
}

/// What a call does with the handles of a cache.
pub enum HandleCall {
    /// It issues this one.
    Issue(u64),
    /// It releases this one, which is open.
    Release(u64),
    /// It does neither.
    Neither,
}

/// The call leads from one set of issued handles to the next.
pub open spec fn leads_to(before: Set<u64>, after: Set<u64>, call: HandleCall) -> bool {
    match call {
        HandleCall::Issue(fh) => issues(before, after, fh),
        HandleCall::Release(fh) => before.contains(fh) && after == after_removal(before, fh),
        HandleCall::Neither => after == before,
    }
}

/// The sets of issued handles before, between and after the calls.
pub open spec fn is_history(sets: Seq<Set<u64>>, calls: Seq<HandleCall>) -> bool {
    &&& sets.len() == calls.len() + 1
    &&& forall|k: int| 0 <= k < calls.len() ==> leads_to(sets[k], sets[k + 1], #[trigger] calls[k])
}

/// The call releases the last handle of a slot.
pub open spec fn starts_anew(call: HandleCall, slot: u64) -> bool {
    match call {
        HandleCall::Release(fh) => is_last(fh) && slot_of(fh) == slot,
        _ => false,
    }
}

/// A handle goes on to count as issued, as long as its slot does not start anew.
proof fn lemma_stays_issued(
    sets: Seq<Set<u64>>,
    calls: Seq<HandleCall>,
    fh: u64,
    i: int,
    k: int,
)
    requires
        is_history(sets, calls),
        0 <= i <= k <= calls.len(),
        sets[i].contains(fh),
        forall|m: int| i <= m < k ==> !starts_anew(#[trigger] calls[m], slot_of(fh)),
    ensures
        sets[k].contains(fh),
    decreases k - i,
{
    if i < k {
        lemma_stays_issued(sets, calls, fh, i, k - 1);
        assert(leads_to(sets[k - 1], sets[k], calls[k - 1]));
        assert(!starts_anew(calls[k - 1], slot_of(fh)));
    }
}

/// A handle is issued a second time only where its slot has started anew in between: the
/// last handle that the slot can have was issued and has been released.
pub proof fn law_handle_comes_back_only_in_a_new_slot(
    sets: Seq<Set<u64>>,
    calls: Seq<HandleCall>,
    fh: u64,
    i: int,
    j: int,
)
    requires
        is_history(sets, calls),
        0 <= i < j < calls.len(),
        calls[i] == HandleCall::Issue(fh),
        calls[j] == HandleCall::Issue(fh),
    ensures
        exists|k: int| i < k < j && starts_anew(#[trigger] calls[k], slot_of(fh)),
{
    assert(leads_to(sets[i], sets[i + 1], calls[i]));
    assert(leads_to(sets[j], sets[j + 1], calls[j]));
    if forall|k: int| i < k < j ==> !starts_anew(#[trigger] calls[k], slot_of(fh)) {
        lemma_stays_issued(sets, calls, fh, i + 1, j);
    }
}

/// How many of the calls issue a handle.
pub open spec fn count_issued(calls: Seq<HandleCall>) -> nat
    decreases calls.len(),
{
    if calls.len() == 0 {
        0
    } else {
        count_issued(calls.drop_last()) + if calls.last() is Issue {
            1nat
        } else {
            0nat
        }
    }
}

/// With a handle, all that its slot had before it count as issued.
spec fn without_gaps(issued: Set<u64>) -> bool {
    forall|key: u64| #[trigger] issued.contains(key) ==> earlier_issued(issued, key)
}

proof fn lemma_no_gaps_after(before: Set<u64>, after: Set<u64>, call: HandleCall)
    requires
        before.finite(),
        without_gaps(before),
        leads_to(before, after, call),
    ensures
        after.finite(),
        without_gaps(after),
        after.len() <= before.len() + if call is Issue {
            1nat
        } else {
            0nat
        },
{
    if let HandleCall::Release(fh) = call {
        before.lemma_len_filter(|k: u64| slot_of(k) != slot_of(fh));
    }
    assert forall|key: u64| #[trigger] after.contains(key) implies earlier_issued(after, key) by {
        if before.contains(key) {
            assert(earlier_issued(before, key));
        }
        assert forall|k: u64|
            slot_of(k) == slot_of(key) && version_of(k) % 2 == 1 && version_of(k) < version_of(
                key,
            ) implies #[trigger] after.contains(k) by {
            assert(before.contains(k));
        }
    }
}

/// After the first `k` calls: no gaps, and no more issued handles than were handed out.
proof fn lemma_history(sets: Seq<Set<u64>>, calls: Seq<HandleCall>, k: int)
    requires
        is_history(sets, calls),
        sets[0] == Set::<u64>::empty(),
        0 <= k <= calls.len(),
    ensures
        sets[k].finite(),
        without_gaps(sets[k]),
        sets[k].len() <= count_issued(calls.take(k)),
    decreases k,
{
    if k > 0 {
        lemma_history(sets, calls, k - 1);
        assert(leads_to(sets[k - 1], sets[k], calls[k - 1]));
        lemma_no_gaps_after(sets[k - 1], sets[k], calls[k - 1]);
        assert(calls.take(k).drop_last() =~= calls.take(k - 1));
        assert(calls.take(k).last() == calls[k - 1]);
    }
}

/// The first `m` keys of a slot.
spec fn first_keys(slot: u64, m: nat) -> Set<u64>
    decreases m,
{
    if m == 0 {
        Set::empty()
    } else {
        first_keys(slot, (m - 1) as nat).insert(
            (slot + (2 * m - 1) * 0x1_0000_0000) as u64,
        )
    }
}

proof fn lemma_first_keys(slot: u64, m: nat)
    requires
        slot < 0x1_0000_0000,
        m <= VERSIONS,
    ensures
        first_keys(slot, m).finite(),
        first_keys(slot, m).len() == m,
        forall|k: u64| #[trigger]
            first_keys(slot, m).contains(k) ==> slot_of(k) == slot && version_of(k) % 2 == 1
                && version_of(k) < 2 * m,
    decreases m,
{
    if m > 0 {
        lemma_first_keys(slot, (m - 1) as nat);
        let key = (slot + (2 * m - 1) * 0x1_0000_0000) as u64;
        assert(slot + (2 * m - 1) * 0x1_0000_0000 <= u64::MAX);
        assert(version_of(key) == 2 * m - 1);
        assert(slot_of(key) == slot);
    }
}

/// Where the last key of a slot counts as issued, so do all keys of the slot.
proof fn lemma_last_key_counts(issued: Set<u64>, key: u64)
    requires
        issued.finite(),
        issued.contains(key),
        earlier_issued(issued, key),
        is_last(key),
    ensures
        issued.len() >= VERSIONS,
{
    let all = first_keys(slot_of(key), VERSIONS as nat);
    lemma_first_keys(slot_of(key), VERSIONS as nat);
    assert forall|k: u64| #[trigger] all.contains(k) implies issued.contains(k) by {
        assert(k == version_of(k) * 0x1_0000_0000 + slot_of(k));
        assert(key == version_of(key) * 0x1_0000_0000 + slot_of(key));
    }
    lemma_len_subset(all, issued);
}

proof fn lemma_count_issued_grows(calls: Seq<HandleCall>, j: int, k: int)
    requires
        0 <= j <= k <= calls.len(),
    ensures
        count_issued(calls.take(j)) <= count_issued(calls.take(k)),
    decreases k - j,
{
    if j < k {
        assert(calls.take(k).drop_last() =~= calls.take(k - 1));
        lemma_count_issued_grows(calls, j, k - 1);
    }
}

/// A slot starts anew only once as many handles have been issued as a slot has versions.
pub proof fn law_slot_starts_anew_late(
    sets: Seq<Set<u64>>,
    calls: Seq<HandleCall>,
    slot: u64,
    k: int,
)
    requires
        is_history(sets, calls),
        sets[0] == Set::<u64>::empty(),
        0 <= k < calls.len(),
        starts_anew(calls[k], slot),
    ensures
        count_issued(calls.take(k)) >= VERSIONS,
{
    lemma_history(sets, calls, k);
    assert(leads_to(sets[k], sets[k + 1], calls[k]));
    if let HandleCall::Release(fh) = calls[k] {
        lemma_last_key_counts(sets[k], fh);
    }
}

/// Among as many handles as a slot has versions no handle is issued twice, however many are
/// released in between.
pub proof fn law_no_handle_is_issued_twice(
    sets: Seq<Set<u64>>,
    calls: Seq<HandleCall>,
    i: int,
    j: int,
)
    requires
        is_history(sets, calls),
        sets[0] == Set::<u64>::empty(),
        count_issued(calls) <= VERSIONS,
        0 <= i < j < calls.len(),
        calls[i] is Issue,
        calls[j] is Issue,
    ensures
        calls[i] != calls[j],
{
    if calls[i] == calls[j] {
        let fh = calls[i]->Issue_0;
        law_handle_comes_back_only_in_a_new_slot(sets, calls, fh, i, j);
        let k = choose|k: int| i < k < j && starts_anew(#[trigger] calls[k], slot_of(fh));
        law_slot_starts_anew_late(sets, calls, slot_of(fh), k);
        lemma_count_issued_grows(calls, k, j);
        assert(calls.take(j + 1).drop_last() =~= calls.take(j));
        assert(calls.take(j + 1).last() == calls[j]);
        lemma_count_issued_grows(calls, j + 1, calls.len() as int);
        assert(calls.take(calls.len() as int) =~= calls);
    }
}

} // verus!
