//! The slab of agent tasks behind `MultiIndexAgentTaskMap`, reached through the
//! `slab` crate that `multi_index_map` re-exports.
//!
//! Every function here is trusted: its body calls one method of
//! `multi_index_map::slab::Slab<AgentTask>` and its contract restates what the
//! slab's source shows, over `task_slots`, the map from occupied slot keys to
//! the tasks stored there.

use vstd::prelude::*;
use crate::keys::after_insert;
use crate::keys::ends_vacant;
use crate::keys::rebuilt_free_keys;
use multi_index_map::slab::Slab;
use crate::agent_task::AgentTask;
use crate::order_store::MAX_STORED;

verus! {

/// The contents of a slab with every slot vacant.
pub open spec fn empty_task_slots() -> Map<usize, AgentTask> {
    Map::empty()
}

/// What a slab of agent tasks holds: each occupied slot key and its task.
pub uninterp spec fn task_slots(s: Slab<AgentTask>) -> Map<usize, AgentTask>;

/// The keys that a slab's inserts hand out next, in that order: its vacant
/// slots as its vacancy list links them (from its `next` field on), then the
/// length of its entry vector, where it grows.
pub uninterp spec fn task_free_keys(s: Slab<AgentTask>) -> Seq<usize>;

/// How many entries a slab's entry vector has room for, as `Slab::capacity`
/// reports it: a function of the slab itself, which holds its vector's
/// capacity.
pub uninterp spec fn task_room(s: Slab<AgentTask>) -> nat;

/// `Slab::new`: a slab with no occupied slot.
#[verifier::external_body]
pub(crate) fn task_slab_new() -> (res: Slab<AgentTask>)
    ensures
        task_slots(res) == empty_task_slots(),
        task_free_keys(res) == seq![0usize],
{
    Slab::new()
}

/// `Slab::with_capacity`: a slab with no occupied slot (only its allocation
/// differs from `Slab::new`). Its vector panics when the room asked for
/// passes `isize::MAX` bytes, which the bound rules out.
#[verifier::external_body]
pub(crate) fn task_slab_with_capacity(n: usize) -> (res: Slab<AgentTask>)
    requires
        n <= MAX_STORED,
    ensures
        task_room(res) >= n,
        task_slots(res) == empty_task_slots(),
        task_free_keys(res) == seq![0usize],
{
    Slab::with_capacity(n)
}

/// `Slab::capacity`: the room of the slab's entry vector, which always has
/// room for at least the occupied slots.
#[verifier::external_body]
pub(crate) fn task_slab_capacity(s: &Slab<AgentTask>) -> (c: usize)
    ensures
        c == task_room(*s),
        task_slots(*s).dom().finite() ==> c >= task_slots(*s).len(),
{
    s.capacity()
}

/// `Slab::len`: the number of occupied slots.
#[verifier::external_body]
pub(crate) fn task_slab_len(s: &Slab<AgentTask>) -> (n: usize)
    ensures
        n == task_slots(*s).len(),
{
    s.len()
}

/// `Slab::is_empty`: whether no slot is occupied.
#[verifier::external_body]
pub(crate) fn task_slab_is_empty(s: &Slab<AgentTask>) -> (b: bool)
    ensures
        b == (task_slots(*s).dom() == Set::<usize>::empty()),
{
    s.is_empty()
}

/// `Slab::reserve`: grows the allocation, keeps every slot. It panics only
/// when the needed bytes pass `isize::MAX`, which the bound rules out.
#[verifier::external_body]
pub(crate) fn task_slab_reserve(s: &mut Slab<AgentTask>, additional: usize)
    requires
        task_slots(*old(s)).len() + additional <= MAX_STORED,
    ensures
        task_slots(*final(s)) == task_slots(*old(s)),
        task_free_keys(*final(s)) == task_free_keys(*old(s)),
        task_room(*final(s)) >= task_slots(*old(s)).len() + additional,
{
    s.reserve(additional)
}

/// `Slab::shrink_to_fit`: drops spare allocation, keeps every slot. When its
/// entry vector ends in vacant entries it drops them and rebuilds its vacancy
/// list in increasing key order; otherwise the list stays as it is.
#[verifier::external_body]
pub(crate) fn task_slab_shrink_to_fit(s: &mut Slab<AgentTask>)
    ensures
        task_slots(*final(s)) == task_slots(*old(s)),
        !ends_vacant(task_slots(*old(s)).dom(), task_free_keys(*old(s))) ==> task_free_keys(*final(s)) == task_free_keys(*old(s)),
        ends_vacant(task_slots(*old(s)).dom(), task_free_keys(*old(s))) ==> rebuilt_free_keys(
            task_slots(*old(s)).dom(),
            task_free_keys(*final(s)),
        ),
        task_room(*final(s)) >= task_slots(*old(s)).len(),
{
    s.shrink_to_fit()
}

/// `Slab::insert`: stores the task in the slot its `next` field names and
/// returns that key: the head of its vacancy list, or, when no slot is vacant,
/// the end of its entry vector, which then grows by one.
#[verifier::external_body]
pub(crate) fn task_slab_insert(s: &mut Slab<AgentTask>, val: AgentTask) -> (k: usize)
    requires
        task_slots(*old(s)).len() < MAX_STORED,
    ensures
        !task_slots(*old(s)).contains_key(k),
        k == task_free_keys(*old(s))[0],
        task_slots(*final(s)) == task_slots(*old(s)).insert(k, val),
        task_free_keys(*final(s)) == after_insert(task_free_keys(*old(s))),
        task_room(*final(s)) >= task_room(*old(s)),
{
    s.insert(val)
}

/// `Slab::remove`: takes the task out of an occupied slot and puts its key
/// at the head of the vacancy list (the slab panics on a vacant key, which
/// the precondition rules out).
#[verifier::external_body]
pub(crate) fn task_slab_remove(s: &mut Slab<AgentTask>, k: usize) -> (v: AgentTask)
    requires
        task_slots(*old(s)).contains_key(k),
    ensures
        v == task_slots(*old(s))[k],
        task_slots(*final(s)) == task_slots(*old(s)).remove(k),
        task_free_keys(*final(s)) == seq![k] + task_free_keys(*old(s)),
        task_room(*final(s)) == task_room(*old(s)),
{
    s.remove(k)
}

/// `Slab`'s `Index`: the task in an occupied slot (indexing a vacant slot
/// panics, which the precondition rules out).
#[verifier::external_body]
pub(crate) fn task_slab_index(s: &Slab<AgentTask>, k: usize) -> (r: &AgentTask)
    requires
        task_slots(*s).contains_key(k),
    ensures
        *r == task_slots(*s)[k],
{
    &s[k]
}

/// `Slab`'s `IndexMut`: a mutable borrow of the task in an occupied slot
/// (a vacant slot panics, which the precondition rules out); whatever is
/// written through it is what the slot holds afterwards.
#[verifier::external_body]
pub(crate) fn task_slab_index_mut(s: &mut Slab<AgentTask>, k: usize) -> (r: &mut AgentTask)
    requires
        task_slots(*old(s)).contains_key(k),
    ensures
        *r == task_slots(*old(s))[k],
        task_slots(*final(s)) == task_slots(*old(s)).insert(k, *final(r)),
        task_free_keys(*final(s)) == task_free_keys(*old(s)),
        task_room(*final(s)) == task_room(*old(s)),
{
    &mut s[k]
}

/// `Slab::clear`: vacates every slot and empties the entry vector, so the
/// next key handed out is 0.
#[verifier::external_body]
pub(crate) fn task_slab_clear(s: &mut Slab<AgentTask>)
    ensures
        task_slots(*final(s)) == empty_task_slots(),
        task_free_keys(*final(s)) == seq![0usize],
        task_room(*final(s)) == task_room(*old(s)),
{
    s.clear()
}

/// `Slab::iter`, collected: every occupied slot with its task, in
/// increasing key order (the slab walks its entry vector front to back).
#[verifier::external_body]
pub(crate) fn task_slab_entries<'a>(s: &'a Slab<AgentTask>) -> (v: Vec<(usize, &'a AgentTask)>)
    ensures
        forall|i: int, j: int| 0 <= i < j < v@.len() ==> v@[i].0 < v@[j].0,
        forall|i: int|
            0 <= i < v@.len() ==> task_slots(*s).contains_key(#[trigger] v@[i].0) && *v@[i].1
                == task_slots(*s)[v@[i].0],
        forall|k: usize|
            task_slots(*s).contains_key(k) ==> exists|i: int| 0 <= i < v@.len() && #[trigger] v@[i].0 == k,
{
    s.iter().collect()
}

/// `Slab::iter_mut`, collected: every occupied slot with a mutable borrow
/// of its task, in increasing key order; no slot comes or goes while the
/// borrows live, and what each borrow holds at its end is what its slot
/// holds afterwards.
#[verifier::external_body]
pub(crate) fn task_slab_entries_mut<'a>(s: &'a mut Slab<AgentTask>) -> (v: Vec<(usize, &'a mut AgentTask)>)
    ensures
        forall|i: int, j: int| 0 <= i < j < v@.len() ==> v@[i].0 < v@[j].0,
        forall|i: int|
            0 <= i < v@.len() ==> task_slots(*old(s)).contains_key(#[trigger] v@[i].0) && *v@[i].1
                == task_slots(*old(s))[v@[i].0],
        forall|k: usize|
            task_slots(*old(s)).contains_key(k) ==> exists|i: int| 0 <= i < v@.len() && #[trigger] v@[i].0 == k,
        task_slots(*final(s)).dom() == task_slots(*old(s)).dom(),
        task_free_keys(*final(s)) == task_free_keys(*old(s)),
        task_room(*final(s)) == task_room(*old(s)),
        forall|i: int| 0 <= i < v@.len() ==> task_slots(*final(s))[#[trigger] v@[i].0] == *final(v@[i].1),
{
    s.iter_mut().collect()
}

} // verus!
